//! The runner: a catalog together with the index built over it.

use vstd::prelude::*;
use crate::catalog::{
    is_catalog,
    is_first_fault,
    programs_of,
    Catalog,
    CatalogEntry,
    LoadError,
    ProgramView,
};
use crate::index::{document_texts, zero_to_one_score, SearchIndex};
use crate::matches::{format_match, match_for, match_type_for, Match, MatchType, MatchView};
use crate::ranking::{is_ranked, outranks, unit_score, QueryResult, LIMIT, ONE};
use crate::search::{
    answers,
    has_common_token,
    has_token_in,
    is_blank,
    is_search_result,
    lemma_search_exists,
    lemma_selection_is_search,
    matching_keys,
    results_for,
    search,
    select_results,
};
use crate::text::{lemma_blank_or_token, split_on, trimmed};

verus! {

/// The matches shown for `query` over the catalog `programs`: the results of
/// the search, each formatted with its program.
pub open spec fn matches_for(programs: Seq<ProgramView>, query: Seq<char>) -> Seq<MatchView> {
    let found = search(document_texts(programs), query);
    Seq::new(
        found.len(),
        |i: int| match_for(programs[found[i].key as int], query, found[i].score),
    )
}

/// The matches of `list` as texts and values.
pub open spec fn match_views(list: Seq<Match>) -> Seq<MatchView> {
    Seq::new(list.len(), |i: int| list[i]@)
}

/// A catalog and its index. The two are made together and never change, so
/// the index always speaks of this catalog.
pub struct Runner {
    catalog: Catalog,
    index: SearchIndex,
}

impl Runner {
    /// The programs of the catalog, each at its key.
    pub closed spec fn programs(&self) -> Seq<ProgramView> {
        self.catalog@
    }

    /// The field texts of the documents in the index, each at its key.
    pub closed spec fn documents(&self) -> Seq<Seq<Seq<char>>> {
        self.index.documents()
    }

    /// The catalog is sound, and the index holds its programs and no others.
    #[verifier::type_invariant]
    pub open spec fn well_formed(&self) -> bool {
        &&& is_catalog(self.programs())
        &&& self.documents() == document_texts(self.programs())
    }

    /// Loads the listing `entries` and builds the index over it, once.
    pub fn new(entries: Vec<CatalogEntry>) -> (made: Result<Runner, LoadError>)
        ensures
            match made {
                Ok(runner) => {
                    &&& forall|i: int|
                        0 <= i < entries@.len() ==> (#[trigger] entries@[i])@.fault(i as usize) is None
                    &&& runner.programs() == programs_of(entries@)
                    &&& runner.well_formed()
                },
                Err(error) => exists|position: int| is_first_fault(entries@, position, error),
            },
    {
        match Catalog::load(entries) {
            Ok(catalog) => {
                let index = SearchIndex::build(&catalog);
                Ok(Runner { catalog, index })
            },
            Err(error) => Err(error),
        }
    }

    /// The catalog.
    pub fn catalog(&self) -> (catalog: &Catalog)
        ensures
            catalog@ == self.programs(),
    {
        &self.catalog
    }

    /// The results of a search for `text`: the programs that share a token
    /// with it, at most `LIMIT`, best first, each with its key and a score from
    /// zero to one. A blank text finds nothing.
    pub fn query(&self, text: &str) -> (found: Vec<QueryResult>)
        ensures
            found@ == search(document_texts(self.programs()), text@),
            is_search_result(found@, document_texts(self.programs()), text@),
            found@.len() <= LIMIT,
            is_ranked(found@),
            forall|i: int|
                0 <= i < found@.len() ==> {
                    &&& (#[trigger] found@[i]).score <= ONE
                    &&& found@[i].key < self.programs().len()
                    &&& answers(self.programs()[found@[i].key as int].indexable_texts(), text@)
                },
    {
        proof {
            use_type_invariant(self);
        }
        let hits = self.index.candidates(text);
        let found = select_results(&self.catalog, text, &hits);
        proof {
            lemma_selection_is_search(found@, self.programs(), text@, hits@);
            assert forall|i: int| 0 <= i < found@.len() implies answers(
                self.programs()[(#[trigger] found@[i]).key as int].indexable_texts(),
                text@,
            ) by {
                assert(results_for(document_texts(self.programs()), text@).contains(found@[i]));
            }
        }
        found
    }

    /// Formats `result`, found for `query`, as a match. The result's key must
    /// be one of the catalog.
    pub fn to_match(&self, query: &str, result: QueryResult) -> (m: Match)
        requires
            result.key < self.programs().len(),
        ensures
            m@ == match_for(self.programs()[result.key as int], query@, result.score),
    {
        format_match(query, self.catalog.program(result.key), result.score)
    }

    /// The matches for `query`: the programs that share a token with it,
    /// formatted, at most `LIMIT`, best first.
    pub fn matches(&self, query: &str) -> (list: Vec<Match>)
        ensures
            match_views(list@) == matches_for(self.programs(), query@),
            list@.len() <= LIMIT,
            forall|i: int| 0 <= i < list@.len() ==> (#[trigger] list@[i]).relevance <= ONE,
            forall|i: int, j: int|
                0 <= i < j < list@.len() ==> (#[trigger] list@[i]).relevance >= (
                #[trigger] list@[j]).relevance,
    {
        proof {
            use_type_invariant(self);
        }
        let found = self.query(query);
        let mut list: Vec<Match> = Vec::new();
        let mut i: usize = 0;
        while i < found.len()
            invariant
                i <= found@.len(),
                list@.len() == i,
                is_ranked(found@),
                forall|j: int| 0 <= j < i ==> (#[trigger] list@[j]).relevance == found@[j].score,
                forall|j: int|
                    0 <= j < found@.len() ==> (#[trigger] found@[j]).score <= ONE && found@[j].key
                        < self.programs().len(),
                forall|j: int|
                    0 <= j < i ==> (#[trigger] list@[j])@ == match_for(
                        self.programs()[found@[j].key as int],
                        query@,
                        found@[j].score,
                    ),
            decreases found@.len() - i,
        {
            let m = self.to_match(query, found[i]);
            list.push(m);
            i += 1;
        }
        assert(match_views(list@) =~= matches_for(self.programs(), query@));
        list
    }
}

/// The result with which the program `key` of `programs` is found for `query`.
pub open spec fn result_for(programs: Seq<ProgramView>, query: Seq<char>, key: usize) -> QueryResult {
    QueryResult {
        key,
        score: unit_score(zero_to_one_score(document_texts(programs), query, key)),
    }
}

/// A search for the identifier of a program of the catalog finds that
/// program, unless `LIMIT` others are found that all outrank it. This holds
/// of every identifier that is not blank.
pub proof fn lemma_own_id_is_found(programs: Seq<ProgramView>, key: usize)
    requires
        key < programs.len(),
        !is_blank(programs[key as int].id),
    ensures
        ({
            let id = programs[key as int].id;
            let found = search(document_texts(programs), id);
            let own = result_for(programs, id, key);
            let shown = match_for(programs[key as int], id, own.score);
            &&& shown.id == id
            &&& found.contains(own) || (found.len() == LIMIT && forall|i: int|
                0 <= i < found.len() ==> outranks(#[trigger] found[i], own))
            &&& found.contains(own) ==> matches_for(programs, id).contains(shown)
        }),
{
    let id = programs[key as int].id;
    let documents = document_texts(programs);
    let found = search(documents, id);
    let own = result_for(programs, id, key);
    let shown = match_for(programs[key as int], id, own.score);
    let t = lemma_blank_or_token(id);
    let tokens = split_on(id, ' ');
    assert(tokens[t].len() > 0 && tokens[t] == tokens[t]);
    assert(has_common_token(tokens, tokens));
    assert(documents[key as int][0] == id);
    assert(has_token_in(tokens, documents[key as int]));
    assert(answers(documents[key as int], id));
    assert(matching_keys(documents, id).contains(key));
    assert(results_for(documents, id).contains(own));
    lemma_search_exists(documents, id);
    if found.contains(own) {
        let i = choose|i: int| 0 <= i < found.len() && found[i] == own;
        assert(matches_for(programs, id)[i] == shown);
    }
}

/// A program found for its own identifier is shown as an exact match. This
/// holds of an identifier without white space at either end.
pub proof fn lemma_own_id_is_exact(id: Seq<char>)
    requires
        trimmed(id) == id,
    ensures
        match_type_for(id, id) == MatchType::ExactMatch,
{
}

/// Two runners made from the same programs give the same results and the
/// same matches for the same query: loading and building again changes
/// nothing.
pub proof fn lemma_rebuilt_runner_answers_alike(first: Runner, second: Runner, query: Seq<char>)
    requires
        first.well_formed(),
        second.well_formed(),
        first.programs() == second.programs(),
    ensures
        search(first.documents(), query) == search(second.documents(), query),
        matches_for(first.programs(), query) == matches_for(second.programs(), query),
{
}

} // verus!
