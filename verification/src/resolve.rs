//! Resolving a station query to one station.
//!
//! A query names a station by its full label or by any part of it. A full
//! label that one station alone bears always wins; otherwise the query must
//! occur in exactly one label.

use crate::data::Node;
use crate::failure::{Failure, FailureView};
use crate::names::{occurs_in, text_contains};
use vstd::prelude::*;

verus! {

/// How many of the matching labels an ambiguity report lists.
pub const MATCH_LIST_CAP: usize = 20;

/// The labels of a list of stations, in order.
pub open spec fn labels_of(nodes: Seq<Node>) -> Seq<Seq<char>> {
    Seq::new(nodes.len(), |i: int| nodes[i].label@)
}

/// Positions below `upto`, in order, of the labels in which `query` occurs.
pub open spec fn partial_upto(labels: Seq<Seq<char>>, query: Seq<char>, upto: int) -> Seq<int> {
    Seq::new(upto as nat, |i: int| i).filter(|i: int| occurs_in(query, labels[i]))
}

/// Positions below `upto`, in order, of the labels equal to `query`.
pub open spec fn exact_upto(labels: Seq<Seq<char>>, query: Seq<char>, upto: int) -> Seq<int> {
    Seq::new(upto as nat, |i: int| i).filter(|i: int| labels[i] == query)
}

/// Positions, in order, of the labels in which `query` occurs.
pub open spec fn partial_matches(labels: Seq<Seq<char>>, query: Seq<char>) -> Seq<int> {
    partial_upto(labels, query, labels.len() as int)
}

/// Positions, in order, of the labels equal to `query`.
pub open spec fn exact_matches(labels: Seq<Seq<char>>, query: Seq<char>) -> Seq<int> {
    exact_upto(labels, query, labels.len() as int)
}

/// What a query resolves to.
pub enum Resolution {
    /// The station at this position.
    Found(int),
    /// No label contains the query.
    NotFound,
    /// These positions match and none settles it.
    Ambiguous(Seq<int>),
}

/// The resolution of `query` against `labels`.
pub open spec fn resolution(labels: Seq<Seq<char>>, query: Seq<char>) -> Resolution {
    let exact = exact_matches(labels, query);
    let partial = partial_matches(labels, query);
    if exact.len() == 1 {
        Resolution::Found(exact[0])
    } else if partial.len() == 1 {
        Resolution::Found(partial[0])
    } else if partial.len() == 0 {
        Resolution::NotFound
    } else {
        Resolution::Ambiguous(partial)
    }
}

/// The labels at the first `MATCH_LIST_CAP` of the positions `hits`.
pub open spec fn listed(labels: Seq<Seq<char>>, hits: Seq<int>) -> Seq<Seq<char>> {
    Seq::new(
        if hits.len() <= MATCH_LIST_CAP {
            hits.len()
        } else {
            MATCH_LIST_CAP as nat
        },
        |k: int| labels[hits[k]],
    )
}

/// The failure that reports an unresolved `query`, or `None` where the query
/// resolves.
pub open spec fn resolution_failure(labels: Seq<Seq<char>>, query: Seq<char>) -> Option<
    FailureView,
> {
    match resolution(labels, query) {
        Resolution::Found(_) => None,
        Resolution::NotFound => Some(FailureView::StationNotFound { query }),
        Resolution::Ambiguous(hits) => Some(
            FailureView::AmbiguousStation {
                query,
                matches: listed(labels, hits),
                more: (hits.len() - listed(labels, hits).len()) as nat,
            },
        ),
    }
}

/// Taking one more label into account appends its position where it matches.
pub proof fn lemma_partial_step(labels: Seq<Seq<char>>, query: Seq<char>, upto: int)
    requires
        0 <= upto,
    ensures
        partial_upto(labels, query, upto + 1) == if occurs_in(query, labels[upto]) {
            partial_upto(labels, query, upto).push(upto)
        } else {
            partial_upto(labels, query, upto)
        },
        partial_upto(labels, query, 0) == Seq::<int>::empty(),
{
    reveal(Seq::filter);
    let all = Seq::new((upto + 1) as nat, |i: int| i);
    assert(all.drop_last() =~= Seq::new(upto as nat, |i: int| i));
    assert(all.last() == upto);
}

/// Taking one more label into account appends its position where it equals
/// the query.
pub proof fn lemma_exact_step(labels: Seq<Seq<char>>, query: Seq<char>, upto: int)
    requires
        0 <= upto,
    ensures
        exact_upto(labels, query, upto + 1) == if labels[upto] == query {
            exact_upto(labels, query, upto).push(upto)
        } else {
            exact_upto(labels, query, upto)
        },
        exact_upto(labels, query, 0) == Seq::<int>::empty(),
{
    reveal(Seq::filter);
    let all = Seq::new((upto + 1) as nat, |i: int| i);
    assert(all.drop_last() =~= Seq::new(upto as nat, |i: int| i));
    assert(all.last() == upto);
}

/// Resolves `query` against the labels of `nodes` and returns the position
/// of the station it names.
pub fn get_station_by_label(nodes: &Vec<Node>, query: &str) -> (found: Result<usize, Failure>)
    ensures
        match resolution(labels_of(nodes@), query@) {
            Resolution::Found(at) => found == Ok::<usize, Failure>(at as usize) && 0 <= at
                < nodes.len(),
            _ => found is Err && Some(found->Err_0@) == resolution_failure(
                labels_of(nodes@),
                query@,
            ),
        },
{
    let wanted: String = query.to_owned();
    let mut exact_count: usize = 0;
    let mut exact_at: usize = 0;
    let mut count: usize = 0;
    let mut first: usize = 0;
    let mut shown: Vec<String> = Vec::new();
    let ghost labels = labels_of(nodes@);
    proof {
        lemma_partial_step(labels, query@, 0);
        lemma_exact_step(labels, query@, 0);
    }
    let mut i: usize = 0;
    while i < nodes.len()
        invariant
            0 <= i <= nodes.len(),
            labels == labels_of(nodes@),
            wanted@ == query@,
            count == partial_upto(labels, query@, i as int).len(),
            count <= i,
            count > 0 ==> first == partial_upto(labels, query@, i as int)[0],
            exact_count == exact_upto(labels, query@, i as int).len(),
            exact_count <= i,
            exact_count > 0 ==> exact_at == exact_upto(labels, query@, i as int)[0],
            forall|k: int|
                0 <= k < partial_upto(labels, query@, i as int).len() ==> 0 <= (
                #[trigger] partial_upto(labels, query@, i as int)[k]) < i,
            forall|k: int|
                0 <= k < exact_upto(labels, query@, i as int).len() ==> 0 <= (
                #[trigger] exact_upto(labels, query@, i as int)[k]) < i,
            shown.deep_view() == listed(labels, partial_upto(labels, query@, i as int)),
        decreases nodes.len() - i,
    {
        proof {
            lemma_partial_step(labels, query@, i as int);
            lemma_exact_step(labels, query@, i as int);
            assert(labels[i as int] == nodes[i as int].label@);
        }
        let ghost before = partial_upto(labels, query@, i as int);
        if text_contains(nodes[i].label.as_str(), query) {
            if count == 0 {
                first = i;
            }
            if shown.len() < MATCH_LIST_CAP {
                let ghost old_shown = shown.deep_view();
                shown.push(nodes[i].label.clone());
                assert(shown.deep_view() =~= old_shown.push(labels[i as int]));
            }
            count = count + 1;
            assert(shown.deep_view() =~= listed(labels, before.push(i as int)));
        }
        if nodes[i].label == wanted {
            if exact_count == 0 {
                exact_at = i;
            }
            exact_count = exact_count + 1;
        }
        i = i + 1;
    }
    if exact_count == 1 {
        Ok(exact_at)
    } else if count == 1 {
        Ok(first)
    } else if count == 0 {
        Err(Failure::StationNotFound { query: wanted })
    } else {
        let more: usize = count - shown.len();
        Err(Failure::AmbiguousStation { query: wanted, matches: shown, more })
    }
}

/// The position that `query` resolves to, where it resolves.
pub open spec fn resolved(labels: Seq<Seq<char>>, query: Seq<char>) -> Option<int> {
    match resolution(labels, query) {
        Resolution::Found(at) => Some(at),
        _ => None,
    }
}

/// `at` is the position of the first of `queries` that does not resolve.
pub open spec fn is_first_unresolved(
    labels: Seq<Seq<char>>,
    queries: Seq<Seq<char>>,
    at: int,
) -> bool {
    &&& 0 <= at < queries.len()
    &&& resolved(labels, queries[at]) is None
    &&& forall|j: int| 0 <= j < at ==> resolved(labels, #[trigger] queries[j]) is Some
}

/// One of `queries` resolves to the position `at`.
pub open spec fn is_named(labels: Seq<Seq<char>>, queries: Seq<Seq<char>>, at: int) -> bool {
    exists|k: int|
        0 <= k < queries.len() && resolved(labels, #[trigger] queries[k]) == Some(at)
}

/// Positions below `upto`, in order, to which none of `queries` resolves.
pub open spec fn kept_upto(labels: Seq<Seq<char>>, queries: Seq<Seq<char>>, upto: int) -> Seq<int> {
    Seq::new(upto as nat, |i: int| i).filter(|i: int| !is_named(labels, queries, i))
}

/// Positions below `upto`, in order, to which one of `queries` resolves.
pub open spec fn named_upto(labels: Seq<Seq<char>>, queries: Seq<Seq<char>>, upto: int) -> Seq<int> {
    Seq::new(upto as nat, |i: int| i).filter(|i: int| is_named(labels, queries, i))
}

/// Taking one more position into account appends it to the kept or to the
/// named positions.
pub proof fn lemma_kept_step(labels: Seq<Seq<char>>, queries: Seq<Seq<char>>, upto: int)
    requires
        0 <= upto,
    ensures
        kept_upto(labels, queries, upto + 1) == if is_named(labels, queries, upto) {
            kept_upto(labels, queries, upto)
        } else {
            kept_upto(labels, queries, upto).push(upto)
        },
        named_upto(labels, queries, upto + 1) == if is_named(labels, queries, upto) {
            named_upto(labels, queries, upto).push(upto)
        } else {
            named_upto(labels, queries, upto)
        },
        kept_upto(labels, queries, 0) == Seq::<int>::empty(),
        named_upto(labels, queries, 0) == Seq::<int>::empty(),
{
    reveal(Seq::filter);
    let all = Seq::new((upto + 1) as nat, |i: int| i);
    assert(all.drop_last() =~= Seq::new(upto as nat, |i: int| i));
    assert(all.last() == upto);
}

/// The kept and the named positions below `upto` are positions below `upto`.
pub proof fn lemma_kept_bounds(labels: Seq<Seq<char>>, queries: Seq<Seq<char>>, upto: int)
    requires
        0 <= upto,
    ensures
        forall|k: int|
            0 <= k < kept_upto(labels, queries, upto).len() ==> 0 <= (#[trigger] kept_upto(
                labels,
                queries,
                upto,
            )[k]) < upto,
        forall|k: int|
            0 <= k < named_upto(labels, queries, upto).len() ==> 0 <= (#[trigger] named_upto(
                labels,
                queries,
                upto,
            )[k]) < upto,
    decreases upto,
{
    if upto > 0 {
        lemma_kept_bounds(labels, queries, upto - 1);
    }
    lemma_kept_step(labels, queries, if upto > 0 {
        upto - 1
    } else {
        0
    });
}

/// Resolves each of `queries` against the labels of `nodes`, in order, and
/// returns the positions found. Fails with the failure of the first query
/// that does not resolve.
pub fn resolve_all(nodes: &Vec<Node>, queries: &Vec<String>) -> (found: Result<Vec<usize>, Failure>)
    ensures
        match found {
            Ok(positions) => {
                &&& positions@.len() == queries@.len()
                &&& forall|k: int|
                    0 <= k < queries@.len() ==> resolved(
                        labels_of(nodes@),
                        #[trigger] queries@[k]@,
                    ) == Some(positions@[k] as int) && positions@[k] < nodes@.len()
            },
            Err(failure) => exists|at: int|
                is_first_unresolved(labels_of(nodes@), queries.deep_view(), at) && Some(failure@)
                    == #[trigger] resolution_failure(labels_of(nodes@), queries@[at]@),
        },
{
    let mut positions: Vec<usize> = Vec::new();
    let mut k: usize = 0;
    while k < queries.len()
        invariant
            0 <= k <= queries.len(),
            positions@.len() == k,
            forall|j: int|
                0 <= j < k ==> resolved(labels_of(nodes@), #[trigger] queries@[j]@) == Some(
                    positions@[j] as int,
                ) && positions@[j] < nodes@.len(),
        decreases queries.len() - k,
    {
        match get_station_by_label(nodes, queries[k].as_str()) {
            Ok(at) => {
                positions.push(at);
            },
            Err(failure) => {
                proof {
                    let texts = queries.deep_view();
                    assert(texts[k as int] == queries@[k as int]@);
                    assert forall|j: int| 0 <= j < k implies resolved(
                        labels_of(nodes@),
                        #[trigger] texts[j],
                    ) is Some by {
                        assert(texts[j] == queries@[j]@);
                    }
                    assert(is_first_unresolved(labels_of(nodes@), texts, k as int));
                }
                return Err(failure);
            },
        }
        k = k + 1;
    }
    Ok(positions)
}

} // verus!
