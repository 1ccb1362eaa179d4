//! The search: which programs answer a query, and which of them are listed.
//!
//! A program answers a query where they share a token: a token of the query
//! that is not empty is a token of the program's identifier, description or
//! package name. The answers are listed best first, `LIMIT` at most.

use std::borrow::Cow;
use vstd::prelude::*;
use crate::catalog::{Catalog, Program, ProgramView};
use crate::index::{
    candidate_keys,
    document_texts,
    is_candidate,
    starts_token,
    zero_to_one_score,
    SearchIndex,
};
use crate::ranking::{
    best_results,
    is_ranked,
    is_ranking,
    lemma_place_exists,
    lemma_ranking_unique,
    lemma_with_hit,
    outranks,
    unit_hits,
    unit_score,
    with_hit,
    QueryResult,
    LIMIT,
    ONE,
};
use crate::text::{chars_of, same_text, split_on, tokenizer, trim_bounds, trimmed};

verus! {

/// Whether one of `tokens` that is not empty is among `others`.
pub open spec fn has_common_token(tokens: Seq<Seq<char>>, others: Seq<Seq<char>>) -> bool {
    exists|q: int, t: int|
        {
            &&& 0 <= q < tokens.len()
            &&& 0 <= t < others.len()
            &&& (#[trigger] tokens[q]).len() > 0
            &&& tokens[q] == #[trigger] others[t]
        }
}

/// Whether one of `tokens` that is not empty is a token of one of `fields`.
pub open spec fn has_token_in(tokens: Seq<Seq<char>>, fields: Seq<Seq<char>>) -> bool {
    exists|f: int|
        0 <= f < fields.len() && has_common_token(tokens, split_on(#[trigger] fields[f], ' '))
}

/// Whether a document with the field texts `fields` answers `query`: they
/// share a token that is not empty.
pub open spec fn answers(fields: Seq<Seq<char>>, query: Seq<char>) -> bool {
    has_token_in(split_on(query, ' '), fields)
}

/// The keys of the documents that answer `query`.
pub open spec fn matching_keys(documents: Seq<Seq<Seq<char>>>, query: Seq<char>) -> Set<usize> {
    Set::new(|key: usize| key < documents.len() && answers(documents[key as int], query))
}

/// A document that answers a query is among the candidates that the index
/// holds out for it: a token starts with itself.
pub proof fn lemma_answer_is_candidate(
    documents: Seq<Seq<Seq<char>>>,
    query: Seq<char>,
    key: usize,
)
    requires
        matching_keys(documents, query).contains(key),
    ensures
        candidate_keys(documents, query).contains(key),
{
    let fields = documents[key as int];
    let tokens = split_on(query, ' ');
    let f = choose|f: int|
        0 <= f < fields.len() && has_common_token(tokens, split_on(#[trigger] fields[f], ' '));
    let others = split_on(fields[f], ' ');
    let (q, t) = choose|q: int, t: int|
        {
            &&& 0 <= q < tokens.len()
            &&& 0 <= t < others.len()
            &&& (#[trigger] tokens[q]).len() > 0
            &&& tokens[q] == #[trigger] others[t]
        };
    assert(tokens[q].is_prefix_of(others[t]));
    assert(starts_token(fields[f], query));
    assert(is_candidate(fields, query));
}

/// The text of a token.
fn token_text<'a>(token: &'a Cow<'a, str>) -> (text: &'a str)
    ensures
        text@ == token@,
{
    match token {
        Cow::Borrowed(text) => text,
        Cow::Owned(text) => text.as_str(),
    }
}

/// Tells whether one of `tokens` that is not empty is a token of `text`.
pub fn has_token_of(text: &str, tokens: &Vec<Cow<'_, str>>) -> (found: bool)
    ensures
        found == has_common_token(tokens.deep_view(), split_on(text@, ' ')),
{
    let pieces = tokenizer(text);
    let ghost ours = tokens.deep_view();
    let ghost theirs = pieces.deep_view();
    let mut q: usize = 0;
    while q < tokens.len()
        invariant
            q <= tokens@.len(),
            ours == tokens.deep_view(),
            theirs == pieces.deep_view(),
            theirs == split_on(text@, ' '),
            forall|q2: int, t: int|
                0 <= q2 < q && 0 <= t < theirs.len() ==> !((#[trigger] ours[q2]).len() > 0
                    && ours[q2] == #[trigger] theirs[t]),
        decreases tokens@.len() - q,
    {
        let token = token_text(&tokens[q]);
        assert(token@ == ours[q as int]);
        if !token.is_empty() {
            let mut t: usize = 0;
            while t < pieces.len()
                invariant
                    q < tokens@.len(),
                    t <= pieces@.len(),
                    ours == tokens.deep_view(),
                    theirs == pieces.deep_view(),
                    theirs == split_on(text@, ' '),
                    token@ == ours[q as int],
                    token@.len() > 0,
                    forall|t2: int| 0 <= t2 < t ==> ours[q as int] != #[trigger] theirs[t2],
                decreases pieces@.len() - t,
            {
                let piece = token_text(&pieces[t]);
                assert(piece@ == theirs[t as int]);
                if same_text(token, piece) {
                    assert(ours[q as int].len() > 0 && ours[q as int] == theirs[t as int]);
                    return true;
                }
                t += 1;
            }
        }
        q += 1;
    }
    false
}

/// Tells whether `program` has one of `tokens` that is not empty among the
/// tokens of its identifier, description or package name.
pub fn has_token_among(program: &Program, tokens: &Vec<Cow<'_, str>>) -> (found: bool)
    ensures
        found == has_token_in(tokens.deep_view(), program@.indexable_texts()),
{
    let ghost fields = program@.indexable_texts();
    assert(fields.len() == 3 && fields[0] == program.id@ && fields[1] == program.description@
        && fields[2] == program.pname@);
    has_token_of(program.id.as_str(), tokens) || has_token_of(program.description.as_str(), tokens)
        || has_token_of(program.pname.as_str(), tokens)
}

/// Tells whether `program` answers `query`.
pub fn program_answers(program: &Program, query: &str) -> (yes: bool)
    ensures
        yes == answers(program@.indexable_texts(), query@),
{
    let tokens = tokenizer(query);
    has_token_among(program, &tokens)
}

/// The test that a result passes whose program is in the catalog `programs`
/// and answers `query`.
pub open spec fn is_answer(programs: Seq<ProgramView>, query: Seq<char>) -> spec_fn(
    QueryResult,
) -> bool {
    |h: QueryResult| matching_keys(document_texts(programs), query).contains(h.key)
}

/// The results among `hits` whose programs answer `query`, in the order of
/// `hits`. A result with a key that the catalog does not hold is dropped.
pub fn answering_hits(catalog: &Catalog, query: &str, hits: &Vec<QueryResult>) -> (kept: Vec<
    QueryResult,
>)
    ensures
        kept@ == hits@.filter(is_answer(catalog@, query@)),
{
    let tokens = tokenizer(query);
    let ghost keep = is_answer(catalog@, query@);
    let mut kept: Vec<QueryResult> = Vec::new();
    let mut i: usize = 0;
    proof {
        reveal(Seq::filter);
        assert(hits@.take(0).filter(keep) == Seq::<QueryResult>::empty());
    }
    while i < hits.len()
        invariant
            i <= hits@.len(),
            keep == is_answer(catalog@, query@),
            tokens.deep_view() == split_on(query@, ' '),
            kept@ == hits@.take(i as int).filter(keep),
        decreases hits@.len() - i,
    {
        let hit = hits[i];
        let answer = match catalog.get(hit.key) {
            Some(program) => has_token_among(program, &tokens),
            None => false,
        };
        proof {
            reveal(Seq::filter);
            let next = hits@.take(i + 1);
            assert(next.drop_last() == hits@.take(i as int));
            assert(next.last() == hit);
            assert(answer == keep(hit));
        }
        if answer {
            kept.push(hit);
        }
        i += 1;
    }
    assert(hits@.take(hits@.len() as int) == hits@);
    kept
}

/// The results that answer `query` among `documents`, each with its score
/// brought into the range from zero to one.
pub open spec fn results_for(documents: Seq<Seq<Seq<char>>>, query: Seq<char>) -> Set<QueryResult> {
    Set::new(
        |h: QueryResult|
            matching_keys(documents, query).contains(h.key) && h.score == unit_score(
                zero_to_one_score(documents, query, h.key),
            ),
    )
}

/// Whether `query` holds nothing but white space.
pub open spec fn is_blank(query: Seq<char>) -> bool {
    trimmed(query).len() == 0
}

/// Whether `out` is what a search for `query` among `documents` gives: nothing
/// for a blank query, else the best `LIMIT` of the results that answer it.
pub open spec fn is_search_result(
    out: Seq<QueryResult>,
    documents: Seq<Seq<Seq<char>>>,
    query: Seq<char>,
) -> bool {
    if is_blank(query) {
        out.len() == 0
    } else {
        is_ranking(out, results_for(documents, query), LIMIT as nat)
    }
}

/// What a search for `query` among `documents` gives.
pub open spec fn search(documents: Seq<Seq<Seq<char>>>, query: Seq<char>) -> Seq<QueryResult> {
    choose|out: Seq<QueryResult>| is_search_result(out, documents, query)
}

/// The results for `query` among the first `count` of `documents`.
spec fn results_below(
    documents: Seq<Seq<Seq<char>>>,
    query: Seq<char>,
    count: nat,
) -> Set<QueryResult> {
    Set::new(|h: QueryResult| h.key < count && results_for(documents, query).contains(h))
}

/// The results among the first `count` documents have a ranking.
proof fn lemma_ranking_below(documents: Seq<Seq<Seq<char>>>, query: Seq<char>, count: nat) -> (out:
    Seq<QueryResult>)
    ensures
        is_ranking(out, results_below(documents, query, count), LIMIT as nat),
    decreases count,
{
    if count == 0 {
        let out = Seq::<QueryResult>::empty();
        assert(results_below(documents, query, 0) =~= Set::<QueryResult>::empty());
        out
    } else {
        let before = (count - 1) as nat;
        let a = lemma_ranking_below(documents, query, before);
        let seen = results_below(documents, query, before);
        if before <= usize::MAX && matching_keys(documents, query).contains(before as usize) {
            let key = before as usize;
            let hit = QueryResult {
                key,
                score: unit_score(zero_to_one_score(documents, query, key)),
            };
            let place = lemma_place_exists(a, hit);
            lemma_with_hit(a, seen, hit, place, LIMIT as nat);
            assert(results_below(documents, query, count) =~= seen.insert(hit));
            with_hit(a, hit, place, LIMIT as nat)
        } else {
            assert(results_below(documents, query, count) =~= seen);
            a
        }
    }
}

/// Every search has a result: `search` gives it.
pub proof fn lemma_search_exists(documents: Seq<Seq<Seq<char>>>, query: Seq<char>)
    ensures
        is_search_result(search(documents, query), documents, query),
{
    if is_blank(query) {
        assert(is_search_result(Seq::<QueryResult>::empty(), documents, query));
    } else {
        let out = lemma_ranking_below(documents, query, documents.len());
        assert(results_below(documents, query, documents.len()) =~= results_for(documents, query));
        assert(is_search_result(out, documents, query));
    }
}

/// A search has one result.
pub proof fn lemma_search_unique(
    a: Seq<QueryResult>,
    b: Seq<QueryResult>,
    documents: Seq<Seq<Seq<char>>>,
    query: Seq<char>,
)
    requires
        is_search_result(a, documents, query),
        is_search_result(b, documents, query),
    ensures
        a == b,
{
    if is_blank(query) {
        assert(a =~= b);
    } else {
        lemma_ranking_unique(a, b, results_for(documents, query), LIMIT as nat);
    }
}

/// Two indexes built over the same catalog give the same results for the
/// same query: building again changes nothing.
pub proof fn lemma_rebuilt_index_answers_alike(
    first: SearchIndex,
    second: SearchIndex,
    programs: Seq<ProgramView>,
    query: Seq<char>,
)
    requires
        first.documents() == document_texts(programs),
        second.documents() == document_texts(programs),
    ensures
        search(first.documents(), query) == search(second.documents(), query),
{
}

/// A search gives at most `LIMIT` results, best first: by falling score, and
/// by rising key where scores are equal. Every score lies between zero and
/// one, and every key is that of a document.
pub proof fn lemma_search_is_ranked(documents: Seq<Seq<Seq<char>>>, query: Seq<char>)
    ensures
        search(documents, query).len() <= LIMIT,
        is_ranked(search(documents, query)),
        forall|i: int|
            0 <= i < search(documents, query).len() ==> {
                &&& (#[trigger] search(documents, query)[i]).score <= ONE
                &&& search(documents, query)[i].key < documents.len()
            },
{
    lemma_search_exists(documents, query);
    let found = search(documents, query);
    if !is_blank(query) {
        assert forall|i: int| 0 <= i < found.len() implies (#[trigger] found[i]).score <= ONE
            && found[i].key < documents.len() by {
            assert(results_for(documents, query).contains(found[i]));
        }
    }
}

/// A search lists each program once at most, lists only programs that answer
/// the query, and lists `LIMIT` of them or, where fewer answer, all.
pub proof fn lemma_search_count(documents: Seq<Seq<Seq<char>>>, query: Seq<char>)
    requires
        !is_blank(query),
    ensures
        matching_keys(documents, query).finite(),
        search(documents, query).len() == if matching_keys(documents, query).len() < LIMIT {
            matching_keys(documents, query).len()
        } else {
            LIMIT as nat
        },
        forall|i: int|
            0 <= i < search(documents, query).len() ==> matching_keys(documents, query).contains(
                (#[trigger] search(documents, query)[i]).key,
            ),
        forall|i: int, j: int|
            0 <= i < j < search(documents, query).len() ==> (#[trigger] search(
                documents,
                query,
            )[i]).key != (#[trigger] search(documents, query)[j]).key,
{
    lemma_search_exists(documents, query);
    let found = search(documents, query);
    let answering = matching_keys(documents, query);
    let keys = Seq::new(found.len(), |i: int| found[i].key);
    let all = Seq::new(documents.len(), |i: int| i as usize);
    assert forall|i: int| 0 <= i < found.len() implies answering.contains(
        (#[trigger] found[i]).key,
    ) by {
        assert(results_for(documents, query).contains(found[i]));
    }
    assert forall|i: int, j: int| 0 <= i < j < found.len() implies (#[trigger] found[i]).key != (
    #[trigger] found[j]).key by {
        assert(results_for(documents, query).contains(found[i]));
        assert(results_for(documents, query).contains(found[j]));
        assert(outranks(found[i], found[j]));
    }
    assert(keys.no_duplicates());
    keys.unique_seq_to_set();
    assert forall|k: usize| answering.contains(k) implies all.to_set().contains(k) by {
        assert(all[k as int] == k);
    }
    vstd::seq_lib::seq_to_set_is_finite(all);
    vstd::set_lib::lemma_len_subset(answering, all.to_set());
    assert forall|k: usize| keys.to_set().contains(k) implies answering.contains(k) by {
        let m = choose|m: int| 0 <= m < keys.len() && keys[m] == k;
        assert(answering.contains(found[m].key));
    }
    vstd::set_lib::lemma_len_subset(keys.to_set(), answering);
    if found.len() < LIMIT {
        assert forall|k: usize| answering.contains(k) implies keys.to_set().contains(k) by {
            let h = QueryResult { key: k, score: unit_score(zero_to_one_score(documents, query, k)) };
            assert(results_for(documents, query).contains(h));
            let m = choose|m: int| 0 <= m < found.len() && found[m] == h;
            assert(keys[m] == k);
        }
        assert(answering =~= keys.to_set());
    }
}

/// A blank query finds nothing, whatever the documents.
pub proof fn lemma_blank_query_finds_nothing(documents: Seq<Seq<Seq<char>>>, query: Seq<char>)
    requires
        is_blank(query),
    ensures
        search(documents, query) == Seq::<QueryResult>::empty(),
{
    lemma_search_exists(documents, query);
    assert(search(documents, query) =~= Seq::<QueryResult>::empty());
}

/// The empty query finds nothing, whatever the documents.
pub proof fn lemma_empty_query_finds_nothing(documents: Seq<Seq<Seq<char>>>)
    ensures
        search(documents, Seq::<char>::empty()) == Seq::<QueryResult>::empty(),
{
    lemma_blank_query_finds_nothing(documents, Seq::<char>::empty());
}

/// Tells whether `text` holds nothing but white space.
pub fn is_blank_text(text: &str) -> (blank: bool)
    ensures
        blank == is_blank(text@),
{
    let v = chars_of(text);
    let (lo, hi) = trim_bounds(&v);
    lo == hi
}

/// What is listed of `hits` for `query` over the catalog `programs`: nothing
/// for a blank query, else the best `LIMIT` of the results whose programs
/// answer the query, each with its score brought into the range from zero to
/// one.
pub open spec fn is_selection(
    out: Seq<QueryResult>,
    programs: Seq<ProgramView>,
    query: Seq<char>,
    hits: Seq<QueryResult>,
) -> bool {
    if is_blank(query) {
        out.len() == 0
    } else {
        is_ranking(out, unit_hits(hits.filter(is_answer(programs, query))), LIMIT as nat)
    }
}

/// Selects what is listed of `hits` for `query`: the results whose programs
/// do not answer the query are dropped, the scores of the others are brought
/// into the range from zero to one, and the best `LIMIT` are listed, best
/// first. For a blank query nothing is listed.
pub fn select_results(catalog: &Catalog, query: &str, hits: &Vec<QueryResult>) -> (out: Vec<
    QueryResult,
>)
    ensures
        is_selection(out@, catalog@, query@, hits@),
        out@.len() <= LIMIT,
        is_ranked(out@),
        forall|i: int|
            0 <= i < out@.len() ==> (#[trigger] out@[i]).score <= ONE && out@[i].key
                < catalog@.len(),
{
    if is_blank_text(query) {
        return Vec::new();
    }
    let kept = answering_hits(catalog, query, hits);
    let out = best_results(&kept);
    proof {
        assert forall|i: int| 0 <= i < out@.len() implies (#[trigger] out@[i]).key
            < catalog@.len() by {
            let h = out@[i];
            assert(unit_hits(kept@).contains(h));
            let m = choose|m: int| 0 <= m < kept@.len() && h == kept@[m].with_unit_score();
            hits@.lemma_filter_pred(is_answer(catalog@, query@), m);
        }
    }
    out
}

/// Where `hits` are the candidates that the index holds out for `query`,
/// each with the scorer's score, what is selected of them is what the search
/// gives.
pub(crate) proof fn lemma_selection_is_search(
    out: Seq<QueryResult>,
    programs: Seq<ProgramView>,
    query: Seq<char>,
    hits: Seq<QueryResult>,
)
    requires
        is_selection(out, programs, query, hits),
        forall|i: int|
            0 <= i < hits.len() ==> {
                &&& candidate_keys(document_texts(programs), query).contains(
                    (#[trigger] hits[i]).key,
                )
                &&& hits[i].score == zero_to_one_score(
                    document_texts(programs),
                    query,
                    hits[i].key,
                )
            },
        forall|key: usize| #[trigger]
            candidate_keys(document_texts(programs), query).contains(key) ==> exists|i: int|
                0 <= i < hits.len() && (#[trigger] hits[i]).key == key,
    ensures
        is_search_result(out, document_texts(programs), query),
        out == search(document_texts(programs), query),
{
    let documents = document_texts(programs);
    let keep = is_answer(programs, query);
    let kept = hits.filter(keep);
    if !is_blank(query) {
        assert forall|h: QueryResult| unit_hits(kept).contains(h) == results_for(
            documents,
            query,
        ).contains(h) by {
            if unit_hits(kept).contains(h) {
                let m = choose|m: int| 0 <= m < kept.len() && h == kept[m].with_unit_score();
                hits.lemma_filter_pred(keep, m);
                hits.lemma_filter_contains_rev(keep, kept[m]);
                let n = choose|n: int| 0 <= n < hits.len() && hits[n] == kept[m];
                assert(hits[n].score == zero_to_one_score(documents, query, hits[n].key));
            }
            if results_for(documents, query).contains(h) {
                lemma_answer_is_candidate(documents, query, h.key);
                let n = choose|n: int| 0 <= n < hits.len() && hits[n].key == h.key;
                assert(keep(hits[n]));
                hits.lemma_filter_contains(keep, n);
                let m = choose|m: int| 0 <= m < kept.len() && kept[m] == hits[n];
                assert(h == kept[m].with_unit_score());
            }
        }
        assert(unit_hits(kept) =~= results_for(documents, query));
    }
    lemma_search_exists(documents, query);
    lemma_search_unique(out, search(documents, query), documents, query);
}

} // verus!
