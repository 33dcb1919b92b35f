//! Query sessions: ranking candidates into a bounded frontier.

use std::collections::HashMap;
use std::sync::atomic::{AtomicBool, Ordering};
use std::sync::Arc;

use vstd::prelude::*;

use crate::model::{self, Row, SearchResult};
use crate::relevance::{
    self, classify, compare_keys, count_terms_in_name, matches_terms, RankKey,
};
use crate::sorting;
use crate::text::{self, chars_of, split_words, Order};
use crate::unicode;

pub use crate::relevance::{RelevanceClass, SortDirection, SortField, SortOrder};
pub use crate::unicode::normalize_search_text;

verus! {

broadcast use vstd::std_specs::hash::group_hash_axioms;

/// An entry that a query may match, with the normalized forms of its name and path.
#[derive(Debug)]
pub struct QueryCandidate {
    pub result: SearchResult,
    pub normalized_name: String,
    pub normalized_path: String,
}

/// What a candidate holds.
pub struct Candidate {
    pub row: Row,
    pub name: Seq<char>,
    pub path: Seq<char>,
}

impl View for QueryCandidate {
    type V = Candidate;

    open spec fn view(&self) -> Candidate {
        Candidate {
            row: self.result@,
            name: self.normalized_name@,
            path: self.normalized_path@,
        }
    }
}

/// What a list of candidates holds.
pub open spec fn candidates_of(list: Seq<QueryCandidate>) -> Seq<Candidate> {
    list.map_values(|candidate: QueryCandidate| candidate@)
}

impl Clone for QueryCandidate {
    fn clone(&self) -> (result: Self)
        ensures
            result == *self,
    {
        QueryCandidate {
            result: self.result.clone(),
            normalized_name: self.normalized_name.clone(),
            normalized_path: self.normalized_path.clone(),
        }
    }
}

/// A flag that one thread sets to stop the work of another.
#[derive(Clone)]
pub struct CancellationToken(Arc<AtomicBool>);

impl Default for CancellationToken {
    /// A token of which no stop was asked yet.
    fn default() -> (token: Self)
        ensures
            token.starts(false),
    {
        CancellationToken(Arc::new(AtomicBool::new(false)))
    }
}

impl CancellationToken {
    /// A look at the flag of this token, by an acquiring load, gives this value. What the holders
    /// of the token have stored by then decides which value it is.
    pub closed spec fn reads(&self, value: bool) -> bool {
        call_ensures(AtomicBool::load, (&*self.0, Ordering::Acquire), value)
    }

    /// The flag of this token was made with this value.
    pub closed spec fn starts(&self, value: bool) -> bool {
        call_ensures(AtomicBool::new, (value,), *self.0)
    }

    /// The flag of this token was handed this value, by a releasing store.
    pub closed spec fn stores(&self, value: bool) -> bool {
        call_ensures(AtomicBool::store, (&*self.0, value, Ordering::Release), ())
    }

    /// Asks the holders of this token to stop: its flag is set, and nothing ever unsets it. That a
    /// look at the flag from then on gives `true` rests on the memory of the machine and is not
    /// stated.
    pub fn cancel(&self)
        ensures
            self.stores(true),
    {
        self.0.store(true, Ordering::Release);
    }

    /// Whether a stop was asked for: what a look at the flag of this token gives. When another
    /// thread asks for a stop is left open, so two calls may differ.
    pub fn is_cancelled(&self) -> (cancelled: bool)
        ensures
            self.reads(cancelled),
    {
        self.0.load(Ordering::Acquire)
    }
}

/// What a query session publishes.
#[derive(Debug, PartialEq, Eq)]
pub struct RankedResults {
    pub rows: Vec<SearchResult>,
    pub exact_total: usize,
    pub max_retained: usize,
    pub cancelled: bool,
}

/// A match with what its place depends on.
pub struct Ranked {
    pub rank: relevance::Rank,
    pub row: Row,
}

/// The terms of a query: the words of its normalized form.
pub open spec fn terms_of(query: Seq<char>) -> Seq<Seq<char>> {
    text::words(unicode::normalized(query))
}

/// When an entry was last opened, or zero.
pub open spec fn opened(recent_opens: Map<u64, u64>, entry_id: u64) -> int {
    if recent_opens.dom().contains(entry_id) {
        recent_opens[entry_id] as int
    } else {
        0
    }
}

impl Candidate {
    /// Every term stands in the name or in the path of this candidate.
    pub open spec fn matches(self, terms: Seq<Seq<char>>) -> bool {
        relevance::all_terms_match(self.name, self.path, terms)
    }

    /// This candidate as a match.
    pub open spec fn ranked(self, terms: Seq<Seq<char>>, recent_opens: Map<u64, u64>) -> Ranked {
        Ranked {
            rank: relevance::Rank {
                class: relevance::class_of(self.name, terms),
                name_terms: relevance::terms_in_name(self.name, terms) as int,
                recent_open: opened(recent_opens, self.row.entry_id),
                name: self.name,
                path: self.path,
                size: self.row.size as int,
                created: self.row.created_ns,
                modified: self.row.modified_ns,
            },
            row: self.row,
        }
    }
}

/// The matches among some candidates, in the order of the candidates.
pub open spec fn matches_of(
    candidates: Seq<Candidate>,
    terms: Seq<Seq<char>>,
    recent_opens: Map<u64, u64>,
) -> Seq<Ranked>
    decreases candidates.len(),
{
    if candidates.len() == 0 {
        Seq::empty()
    } else {
        let before = matches_of(candidates.drop_last(), terms, recent_opens);
        if candidates.last().matches(terms) {
            before.push(candidates.last().ranked(terms, recent_opens))
        } else {
            before
        }
    }
}

/// The place of a match in a list: behind the last one that it does not come before.
pub open spec fn slot(
    sort: SortOrder,
    list: Seq<Ranked>,
    rank: relevance::Rank,
) -> int
    decreases list.len(),
{
    if list.len() == 0 || relevance::rank_order(sort, list.last().rank, rank)
        != Order::Greater {
        list.len() as int
    } else {
        slot(sort, list.drop_last(), rank)
    }
}

/// A list with one more match in its place.
pub open spec fn placed(sort: SortOrder, list: Seq<Ranked>, item: Ranked) -> Seq<Ranked> {
    list.insert(slot(sort, list, item.rank), item)
}

/// The matches in the order that was asked for; matches that compare as equal keep their order.
pub open spec fn ranking(sort: SortOrder, matches: Seq<Ranked>) -> Seq<Ranked>
    decreases matches.len(),
{
    if matches.len() == 0 {
        Seq::empty()
    } else {
        placed(sort, ranking(sort, matches.drop_last()), matches.last())
    }
}

/// The first `limit` items of a list, or all of them.
pub open spec fn frontier(list: Seq<Ranked>, limit: int) -> Seq<Ranked> {
    if limit < list.len() {
        list.take(limit)
    } else {
        list
    }
}

/// What a list of matches shows.
pub open spec fn shown(list: Seq<Ranked>) -> Seq<Row> {
    list.map_values(|item: Ranked| item.row)
}

/// No match comes before one that it should follow.
pub open spec fn in_order(sort: SortOrder, list: Seq<Ranked>) -> bool {
    forall|i: int, j: int|
        #![trigger list[i], list[j]]
        0 <= i < j < list.len() ==> relevance::rank_order(sort, list[i].rank, list[j].rank)
            != Order::Greater
}

/// What the place of a match is.
proof fn slot_separates(sort: SortOrder, list: Seq<Ranked>, rank: relevance::Rank)
    ensures
        0 <= slot(sort, list, rank) <= list.len(),
        slot(sort, list, rank) > 0 ==> relevance::rank_order(
            sort,
            list[slot(sort, list, rank) - 1].rank,
            rank,
        ) != Order::Greater,
        forall|i: int|
            slot(sort, list, rank) <= i < list.len() ==> relevance::rank_order(
                sort,
                (#[trigger] list[i]).rank,
                rank,
            ) == Order::Greater,
    decreases list.len(),
{
    if list.len() > 0 && relevance::rank_order(sort, list.last().rank, rank)
        == Order::Greater {
        let rest = list.drop_last();
        slot_separates(sort, rest, rank);
        assert forall|i: int|
            slot(sort, list, rank) <= i < list.len() implies relevance::rank_order(
            sort,
            (#[trigger] list[i]).rank,
            rank,
        ) == Order::Greater by {
            if i < rest.len() {
                assert(rest[i] == list[i]);
            }
        }
    }
}

/// A position that separates what a match follows from what it precedes is its place.
proof fn slot_is_unique(
    sort: SortOrder,
    list: Seq<Ranked>,
    rank: relevance::Rank,
    at: int,
)
    requires
        0 <= at <= list.len(),
        at > 0 ==> relevance::rank_order(sort, list[at - 1].rank, rank) != Order::Greater,
        forall|i: int|
            at <= i < list.len() ==> relevance::rank_order(
                sort,
                (#[trigger] list[i]).rank,
                rank,
            ) == Order::Greater,
    ensures
        slot(sort, list, rank) == at,
    decreases list.len(),
{
    if at < list.len() {
        slot_is_unique(sort, list.drop_last(), rank, at);
    }
}

/// Putting a match in its place keeps the order.
proof fn placing_keeps_order(sort: SortOrder, list: Seq<Ranked>, item: Ranked)
    requires
        in_order(sort, list),
    ensures
        in_order(sort, placed(sort, list, item)),
{
    let at = slot(sort, list, item.rank);
    slot_separates(sort, list, item.rank);
    let result = placed(sort, list, item);
    assert forall|i: int, j: int|
        #![trigger result[i], result[j]]
        0 <= i < j < result.len() implies relevance::rank_order(
        sort,
        result[i].rank,
        result[j].rank,
    ) != Order::Greater by {
        if j < at {
            assert(result[i] == list[i] && result[j] == list[j]);
        } else if j == at {
            assert(result[i] == list[i]);
            if i < at - 1 {
                assert(relevance::rank_order(sort, list[i].rank, list[at - 1].rank)
                    != Order::Greater);
                relevance::rank_order_is_total(
                    sort,
                    list[i].rank,
                    list[at - 1].rank,
                    item.rank,
                );
            }
        } else {
            assert(result[j] == list[j - 1]);
            if i < at {
                assert(result[i] == list[i]);
            } else if i == at {
                relevance::rank_order_is_total(
                    sort,
                    list[j - 1].rank,
                    item.rank,
                    item.rank,
                );
            } else {
                assert(result[i] == list[i - 1]);
            }
        }
    }
}

/// A ranking is in the order that was asked for and holds exactly the matches.
pub proof fn ranking_is_sorted(sort: SortOrder, matches: Seq<Ranked>)
    ensures
        in_order(sort, ranking(sort, matches)),
        ranking(sort, matches).len() == matches.len(),
        ranking(sort, matches).to_multiset() == matches.to_multiset(),
    decreases matches.len(),
{
    broadcast use vstd::seq_lib::group_to_multiset_ensures;

    if matches.len() > 0 {
        let before = matches.drop_last();
        ranking_is_sorted(sort, before);
        placing_keeps_order(sort, ranking(sort, before), matches.last());
        slot_separates(sort, ranking(sort, before), matches.last().rank);
        assert(matches =~= before.push(matches.last()));
    }
}

/// A larger frontier starts with the smaller one.
pub proof fn larger_frontier_extends_smaller(
    sort: SortOrder,
    matches: Seq<Ranked>,
    smaller: int,
    larger: int,
)
    requires
        0 <= smaller <= larger,
    ensures
        frontier(ranking(sort, matches), smaller) == frontier(
            frontier(ranking(sort, matches), larger),
            smaller,
        ),
{
    let list = ranking(sort, matches);
    if larger < list.len() {
        assert(list.take(larger).take(smaller) =~= list.take(smaller));
    }
}

/// Nothing that a frontier leaves out comes before what it holds.
pub proof fn frontier_holds_the_first(
    sort: SortOrder,
    matches: Seq<Ranked>,
    limit: int,
    kept: int,
    left_out: int,
)
    requires
        0 <= kept < limit <= left_out < matches.len(),
    ensures
        relevance::rank_order(
            sort,
            frontier(ranking(sort, matches), limit)[kept].rank,
            ranking(sort, matches)[left_out].rank,
        ) != Order::Greater,
{
    ranking_is_sorted(sort, matches);
}

/// A candidate with every term in its name or path is among the matches.
pub proof fn matching_candidates_are_found(
    candidates: Seq<Candidate>,
    terms: Seq<Seq<char>>,
    recent_opens: Map<u64, u64>,
    sort: SortOrder,
    at: int,
)
    requires
        0 <= at < candidates.len(),
        candidates[at].matches(terms),
    ensures
        ranking(sort, matches_of(candidates, terms, recent_opens)).contains(
            candidates[at].ranked(terms, recent_opens),
        ),
{
    broadcast use vstd::seq_lib::group_to_multiset_ensures;

    let found = matches_of(candidates, terms, recent_opens);
    let item = candidates[at].ranked(terms, recent_opens);
    match_is_kept(candidates, terms, recent_opens, at);
    ranking_is_sorted(sort, found);
    assert(found.to_multiset().count(item) > 0);
}

/// There are no more matches than candidates.
pub proof fn matches_are_candidates(
    candidates: Seq<Candidate>,
    terms: Seq<Seq<char>>,
    recent_opens: Map<u64, u64>,
)
    ensures
        matches_of(candidates, terms, recent_opens).len() <= candidates.len(),
    decreases candidates.len(),
{
    if candidates.len() > 0 {
        matches_are_candidates(candidates.drop_last(), terms, recent_opens);
    }
}

proof fn match_is_kept(
    candidates: Seq<Candidate>,
    terms: Seq<Seq<char>>,
    recent_opens: Map<u64, u64>,
    at: int,
)
    requires
        0 <= at < candidates.len(),
        candidates[at].matches(terms),
    ensures
        matches_of(candidates, terms, recent_opens).contains(
            candidates[at].ranked(terms, recent_opens),
        ),
    decreases candidates.len(),
{
    let before = matches_of(candidates.drop_last(), terms, recent_opens);
    let all = matches_of(candidates, terms, recent_opens);
    let item = candidates[at].ranked(terms, recent_opens);
    if at == candidates.len() - 1 {
        assert(all[before.len() as int] == item);
    } else {
        match_is_kept(candidates.drop_last(), terms, recent_opens, at);
        let i = choose|i: int| 0 <= i < before.len() && before[i] == item;
        assert(all[i] == item);
    }
}

/// Every match is a candidate with every term in its name or path.
pub proof fn matches_hold_every_term(
    candidates: Seq<Candidate>,
    terms: Seq<Seq<char>>,
    recent_opens: Map<u64, u64>,
    sort: SortOrder,
    at: int,
)
    requires
        0 <= at < ranking(sort, matches_of(candidates, terms, recent_opens)).len(),
    ensures
        exists|i: int|
            0 <= i < candidates.len() && (#[trigger] candidates[i]).matches(terms) && ranking(
                sort,
                matches_of(candidates, terms, recent_opens),
            )[at] == candidates[i].ranked(terms, recent_opens),
{
    broadcast use vstd::seq_lib::group_to_multiset_ensures;

    let found = matches_of(candidates, terms, recent_opens);
    let list = ranking(sort, found);
    ranking_is_sorted(sort, found);
    assert(list.contains(list[at]));
    assert(list.to_multiset().count(list[at]) > 0);
    assert(found.contains(list[at]));
    let k = choose|k: int| 0 <= k < found.len() && found[k] == list[at];
    match_comes_from_a_candidate(candidates, terms, recent_opens, k);
}

proof fn match_comes_from_a_candidate(
    candidates: Seq<Candidate>,
    terms: Seq<Seq<char>>,
    recent_opens: Map<u64, u64>,
    at: int,
)
    requires
        0 <= at < matches_of(candidates, terms, recent_opens).len(),
    ensures
        exists|i: int|
            0 <= i < candidates.len() && (#[trigger] candidates[i]).matches(terms) && matches_of(
                candidates,
                terms,
                recent_opens,
            )[at] == candidates[i].ranked(terms, recent_opens),
    decreases candidates.len(),
{
    let rest = candidates.drop_last();
    let before = matches_of(rest, terms, recent_opens);
    if at < before.len() {
        match_comes_from_a_candidate(rest, terms, recent_opens, at);
        let i = choose|i: int|
            0 <= i < rest.len() && (#[trigger] rest[i]).matches(terms) && before[at]
                == rest[i].ranked(terms, recent_opens);
        assert(candidates[i] == rest[i]);
    } else {
        assert(candidates[candidates.len() - 1] == candidates.last());
    }
}

/// The order of the terms of a query does not matter for its matches.
pub proof fn term_order_does_not_matter(
    candidates: Seq<Candidate>,
    left: Seq<Seq<char>>,
    right: Seq<Seq<char>>,
    recent_opens: Map<u64, u64>,
)
    requires
        left.to_multiset() == right.to_multiset(),
    ensures
        matches_of(candidates, left, recent_opens) == matches_of(candidates, right, recent_opens),
    decreases candidates.len(),
{
    if candidates.len() > 0 {
        let last = candidates.last();
        term_order_does_not_matter(candidates.drop_last(), left, right, recent_opens);
        relevance::terms_come_in_any_order(last.name, last.path, left, right);
    }
}

/// No two matches share their path.
pub open spec fn paths_differ(list: Seq<Ranked>) -> bool {
    forall|i: int, j: int|
        #![trigger list[i], list[j]]
        0 <= i < j < list.len() ==> list[i].rank.path != list[j].rank.path
}

/// No two candidates share their path.
pub open spec fn candidate_paths_differ(list: Seq<Candidate>) -> bool {
    forall|i: int, j: int|
        #![trigger list[i], list[j]]
        0 <= i < j < list.len() ==> list[i].path != list[j].path
}

/// Matches of candidates with different paths have different paths.
proof fn matches_have_different_paths(
    candidates: Seq<Candidate>,
    terms: Seq<Seq<char>>,
    recent_opens: Map<u64, u64>,
)
    requires
        candidate_paths_differ(candidates),
    ensures
        paths_differ(matches_of(candidates, terms, recent_opens)),
    decreases candidates.len(),
{
    if candidates.len() > 0 {
        let rest = candidates.drop_last();
        let last = candidates.len() - 1;
        let before = matches_of(rest, terms, recent_opens);
        let all = matches_of(candidates, terms, recent_opens);
        assert forall|i: int, j: int|
            #![trigger rest[i], rest[j]]
            0 <= i < j < rest.len() implies rest[i].path != rest[j].path by {
            assert(rest[i] == candidates[i] && rest[j] == candidates[j]);
        }
        matches_have_different_paths(rest, terms, recent_opens);
        assert forall|i: int, j: int|
            #![trigger all[i], all[j]]
            0 <= i < j < all.len() implies all[i].rank.path != all[j].rank.path by {
            if j < before.len() {
                assert(all[i] == before[i] && all[j] == before[j]);
            } else {
                assert(all[i] == before[i]);
                match_comes_from_a_candidate(rest, terms, recent_opens, i);
                let k = choose|k: int|
                    0 <= k < rest.len() && (#[trigger] rest[k]).matches(terms) && before[i]
                        == rest[k].ranked(terms, recent_opens);
                assert(candidates[k] == rest[k]);
                assert(candidates[k].path != candidates[last].path);
            }
        }
    }
}

/// Different paths stay different in any order.
proof fn paths_differ_in_any_order(left: Seq<Ranked>, right: Seq<Ranked>)
    requires
        paths_differ(left),
        left.to_multiset() == right.to_multiset(),
    ensures
        paths_differ(right),
        forall|item: Ranked| #[trigger] left.contains(item) <==> right.contains(item),
{
    broadcast use vstd::seq_lib::group_to_multiset_ensures;

    assert forall|item: Ranked| #[trigger] left.contains(item) <==> right.contains(item) by {
        assert(left.contains(item) <==> left.to_multiset().count(item) > 0);
        assert(right.contains(item) <==> right.to_multiset().count(item) > 0);
    }
    assert(left.no_duplicates());
    left.lemma_multiset_has_no_duplicates();
    right.lemma_multiset_has_no_duplicates_conv();
    assert forall|i: int, j: int|
        #![trigger right[i], right[j]]
        0 <= i < j < right.len() implies right[i].rank.path != right[j].rank.path by {
        assert(right.contains(right[i]) && right.contains(right[j]));
        assert(left.contains(right[i]) && left.contains(right[j]));
        let a = choose|a: int| 0 <= a < left.len() && left[a] == right[i];
        let b = choose|b: int| 0 <= b < left.len() && left[b] == right[j];
        assert(right[i] != right[j]);
        if a < b {
            assert(left[a].rank.path != left[b].rank.path);
        } else {
            assert(left[b].rank.path != left[a].rank.path);
        }
    }
}

/// A ranking of candidates with different paths shows each path once.
pub proof fn rankings_have_different_paths(
    sort: SortOrder,
    candidates: Seq<Candidate>,
    terms: Seq<Seq<char>>,
    recent_opens: Map<u64, u64>,
)
    requires
        candidate_paths_differ(candidates),
    ensures
        paths_differ(ranking(sort, matches_of(candidates, terms, recent_opens))),
{
    let found = matches_of(candidates, terms, recent_opens);
    matches_have_different_paths(candidates, terms, recent_opens);
    ranking_is_sorted(sort, found);
    paths_differ_in_any_order(found, ranking(sort, found));
}

/// The last match of a list in order comes behind every other one.
proof fn last_match_comes_last(sort: SortOrder, list: Seq<Ranked>, item: Ranked)
    requires
        in_order(sort, list),
        paths_differ(list),
        list.contains(item),
    ensures
        item == list.last() || relevance::rank_order(sort, item.rank, list.last().rank)
            == Order::Less,
{
    let k = choose|k: int| 0 <= k < list.len() && list[k] == item;
    let last = list.len() - 1;
    if k < last {
        assert(relevance::rank_order(sort, list[k].rank, list[last].rank) != Order::Greater);
        assert(list[k].rank.path != list[last].rank.path);
        if relevance::rank_order(sort, list[k].rank, list[last].rank) == Order::Equal {
            relevance::equal_matches_share_their_path(sort, list[k].rank, list[last].rank);
        }
    }
}

proof fn all_matches_but_the_last(left: Seq<Ranked>, right: Seq<Ranked>, item: Ranked)
    requires
        paths_differ(left),
        left.len() > 0,
        right.len() > 0,
        left.last() == right.last(),
        left.contains(item) ==> right.contains(item),
    ensures
        left.drop_last().contains(item) ==> right.drop_last().contains(item),
{
    let less = left.drop_last();
    let rest = right.drop_last();
    if less.contains(item) {
        let k = choose|k: int| 0 <= k < less.len() && less[k] == item;
        let last = left.len() - 1;
        assert(left[k] == item);
        assert(left[k].rank.path != left[last].rank.path);
        assert(left.contains(item));
        let m = choose|m: int| 0 <= m < right.len() && right[m] == item;
        assert(rest[m] == item);
    }
}

proof fn order_without_the_last(sort: SortOrder, list: Seq<Ranked>)
    requires
        in_order(sort, list),
        paths_differ(list),
        list.len() > 0,
    ensures
        in_order(sort, list.drop_last()),
        paths_differ(list.drop_last()),
{
    let less = list.drop_last();
    assert forall|i: int, j: int|
        #![trigger less[i], less[j]]
        0 <= i < j < less.len() implies relevance::rank_order(sort, less[i].rank, less[j].rank)
        != Order::Greater && less[i].rank.path != less[j].rank.path by {
        assert(less[i] == list[i] && less[j] == list[j]);
    }
}

/// Matches with different paths have one order only.
pub proof fn matches_have_one_order(sort: SortOrder, left: Seq<Ranked>, right: Seq<Ranked>)
    requires
        in_order(sort, left),
        in_order(sort, right),
        paths_differ(left),
        paths_differ(right),
        forall|item: Ranked| #[trigger] left.contains(item) <==> right.contains(item),
    ensures
        left == right,
    decreases left.len(),
{
    if left.len() == 0 || right.len() == 0 {
        if right.len() > 0 {
            assert(right.contains(right[0]));
            assert(left.contains(right[0]));
        }
        if left.len() > 0 {
            assert(left.contains(left[0]));
        }
        assert(left =~= right);
    } else {
        let a = left.last();
        let b = right.last();
        assert(left.contains(a)) by {
            assert(left[left.len() - 1] == a);
        }
        assert(right.contains(b)) by {
            assert(right[right.len() - 1] == b);
        }
        assert(left.contains(b));
        last_match_comes_last(sort, left, b);
        last_match_comes_last(sort, right, a);
        relevance::rank_order_is_total(sort, a.rank, b.rank, b.rank);
        let less = left.drop_last();
        let rest = right.drop_last();
        assert forall|item: Ranked| #[trigger] less.contains(item) <==> rest.contains(item) by {
            assert(left.contains(item) <==> right.contains(item));
            all_matches_but_the_last(left, right, item);
            all_matches_but_the_last(right, left, item);
        }
        order_without_the_last(sort, left);
        order_without_the_last(sort, right);
        matches_have_one_order(sort, less, rest);
        assert(left =~= less.push(a));
        assert(right =~= rest.push(b));
    }
}

/// The order in which candidates come in does not matter for their ranking, where no two of them
/// share their path.
pub proof fn candidate_order_does_not_matter(
    sort: SortOrder,
    left: Seq<Candidate>,
    right: Seq<Candidate>,
    terms: Seq<Seq<char>>,
    recent_opens: Map<u64, u64>,
)
    requires
        candidate_paths_differ(left),
        left.to_multiset() == right.to_multiset(),
    ensures
        ranking(sort, matches_of(left, terms, recent_opens)) == ranking(
            sort,
            matches_of(right, terms, recent_opens),
        ),
{
    broadcast use vstd::seq_lib::group_to_multiset_ensures;

    assert forall|candidate: Candidate| #[trigger] left.contains(candidate) <==> right.contains(
        candidate,
    ) by {
        assert(left.contains(candidate) <==> left.to_multiset().count(candidate) > 0);
        assert(right.contains(candidate) <==> right.to_multiset().count(candidate) > 0);
    }
    assert(left.no_duplicates());
    left.lemma_multiset_has_no_duplicates();
    right.lemma_multiset_has_no_duplicates_conv();
    assert forall|i: int, j: int|
        #![trigger right[i], right[j]]
        0 <= i < j < right.len() implies right[i].path != right[j].path by {
        assert(right.contains(right[i]) && right.contains(right[j]));
        assert(left.contains(right[i]) && left.contains(right[j]));
        let a = choose|a: int| 0 <= a < left.len() && left[a] == right[i];
        let b = choose|b: int| 0 <= b < left.len() && left[b] == right[j];
        assert(right[i] != right[j]);
        if a < b {
            assert(left[a].path != left[b].path);
        } else {
            assert(left[b].path != left[a].path);
        }
    }
    let one = matches_of(left, terms, recent_opens);
    let two = matches_of(right, terms, recent_opens);
    matches_have_different_paths(left, terms, recent_opens);
    matches_have_different_paths(right, terms, recent_opens);
    ranking_is_sorted(sort, one);
    ranking_is_sorted(sort, two);
    paths_differ_in_any_order(one, ranking(sort, one));
    paths_differ_in_any_order(two, ranking(sort, two));
    assert forall|item: Ranked| #[trigger] ranking(sort, one).contains(item) <==> ranking(
        sort,
        two,
    ).contains(item) by {
        assert(one.contains(item) <==> ranking(sort, one).contains(item));
        assert(two.contains(item) <==> ranking(sort, two).contains(item));
        if one.contains(item) {
            same_candidates_match(left, right, terms, recent_opens, item);
        }
        if two.contains(item) {
            same_candidates_match(right, left, terms, recent_opens, item);
        }
    }
    matches_have_one_order(sort, ranking(sort, one), ranking(sort, two));
}

proof fn same_candidates_match(
    left: Seq<Candidate>,
    right: Seq<Candidate>,
    terms: Seq<Seq<char>>,
    recent_opens: Map<u64, u64>,
    item: Ranked,
)
    requires
        forall|candidate: Candidate| #[trigger]
            left.contains(candidate) ==> right.contains(candidate),
        matches_of(left, terms, recent_opens).contains(item),
    ensures
        matches_of(right, terms, recent_opens).contains(item),
{
    let found = matches_of(left, terms, recent_opens);
    let at = choose|at: int| 0 <= at < found.len() && found[at] == item;
    match_comes_from_a_candidate(left, terms, recent_opens, at);
    let i = choose|i: int|
        0 <= i < left.len() && (#[trigger] left[i]).matches(terms) && found[at] == left[i].ranked(
            terms,
            recent_opens,
        );
    assert(left.contains(left[i]));
    let k = choose|k: int| 0 <= k < right.len() && right[k] == left[i];
    match_is_kept(right, terms, recent_opens, k);
}

/// A match as it would be without any opening.
spec fn unopened(item: Ranked) -> Ranked {
    Ranked { rank: relevance::Rank { recent_open: 0, ..item.rank }, row: item.row }
}

/// How many matches do not come behind a rank, recent openings aside.
spec fn not_behind(sort: SortOrder, list: Seq<Ranked>, rank: relevance::Rank) -> nat
    decreases list.len(),
{
    if list.len() == 0 {
        0
    } else {
        not_behind(sort, list.drop_last(), rank) + if relevance::structural_order(
            sort,
            list.last().rank,
            rank,
        ) != Order::Greater {
            1nat
        } else {
            0nat
        }
    }
}

proof fn one_of_many_not_behind(
    sort: SortOrder,
    list: Seq<Ranked>,
    rank: relevance::Rank,
    at: int,
)
    requires
        0 <= at < list.len(),
    ensures
        not_behind(sort, list, rank) == not_behind(sort, list.remove(at), rank)
            + if relevance::structural_order(sort, list[at].rank, rank) != Order::Greater {
            1nat
        } else {
            0nat
        },
    decreases list.len(),
{
    let rest = list.drop_last();
    if at == rest.len() {
        assert(list.remove(at) =~= rest);
    } else {
        one_of_many_not_behind(sort, rest, rank, at);
        assert(list.remove(at).drop_last() =~= rest.remove(at));
        assert(list.remove(at).last() == list.last());
    }
}

proof fn not_behind_in_any_order(
    sort: SortOrder,
    left: Seq<Ranked>,
    right: Seq<Ranked>,
    rank: relevance::Rank,
)
    requires
        left.to_multiset() == right.to_multiset(),
    ensures
        not_behind(sort, left, rank) == not_behind(sort, right, rank),
        left.len() == right.len(),
    decreases left.len(),
{
    broadcast use vstd::seq_lib::group_to_multiset_ensures;

    assert(left.len() == left.to_multiset().len());
    assert(right.len() == right.to_multiset().len());
    if left.len() > 0 {
        let last = left.len() - 1;
        let item = left[last];
        assert(left.contains(item));
        assert(left.to_multiset().count(item) > 0);
        assert(right.contains(item));
        let at = choose|at: int| 0 <= at < right.len() && right[at] == item;
        assert(left.remove(last) =~= left.drop_last());
        assert(left.drop_last().to_multiset() =~= right.remove(at).to_multiset());
        not_behind_in_any_order(sort, left.drop_last(), right.remove(at), rank);
        one_of_many_not_behind(sort, right, rank, at);
    }
}

/// Recent openings do not count for what does not come behind a rank.
proof fn not_behind_without_openings(sort: SortOrder, list: Seq<Ranked>, rank: relevance::Rank)
    ensures
        not_behind(sort, list, rank) == not_behind(
            sort,
            list.map_values(|item: Ranked| unopened(item)),
            rank,
        ),
    decreases list.len(),
{
    let plain = list.map_values(|item: Ranked| unopened(item));
    if list.len() > 0 {
        not_behind_without_openings(sort, list.drop_last(), rank);
        assert(plain.drop_last() =~= list.drop_last().map_values(|item: Ranked| unopened(item)));
        assert(plain.last() == unopened(list.last()));
    }
}

proof fn not_behind_is_at_least(
    sort: SortOrder,
    list: Seq<Ranked>,
    rank: relevance::Rank,
    count: int,
)
    requires
        0 <= count <= list.len(),
        forall|i: int|
            0 <= i < count ==> relevance::structural_order(
                sort,
                (#[trigger] list[i]).rank,
                rank,
            ) != Order::Greater,
    ensures
        not_behind(sort, list, rank) >= count,
    decreases list.len(),
{
    if list.len() > 0 {
        let rest = list.drop_last();
        let less = if count < list.len() {
            count
        } else {
            count - 1
        };
        assert forall|i: int| 0 <= i < less implies relevance::structural_order(
            sort,
            (#[trigger] rest[i]).rank,
            rank,
        ) != Order::Greater by {
            assert(rest[i] == list[i]);
        }
        if count == list.len() && count > 0 {
            assert(list[count - 1] == list.last());
        }
        if less >= 0 {
            not_behind_is_at_least(sort, rest, rank, less);
        }
    }
}

proof fn not_behind_is_at_most(
    sort: SortOrder,
    list: Seq<Ranked>,
    rank: relevance::Rank,
    count: int,
)
    requires
        0 <= count <= list.len(),
        forall|i: int|
            count <= i < list.len() ==> relevance::structural_order(
                sort,
                (#[trigger] list[i]).rank,
                rank,
            ) == Order::Greater,
    ensures
        not_behind(sort, list, rank) <= count,
    decreases list.len(),
{
    if list.len() > 0 {
        let rest = list.drop_last();
        let last = list.len() - 1;
        let less = if count < list.len() {
            count
        } else {
            count - 1
        };
        assert forall|i: int| less <= i < rest.len() implies relevance::structural_order(
            sort,
            (#[trigger] rest[i]).rank,
            rank,
        ) == Order::Greater by {
            assert(rest[i] == list[i]);
        }
        if count < list.len() {
            assert(relevance::structural_order(sort, list[last].rank, rank) == Order::Greater);
        }
        not_behind_is_at_most(sort, rest, rank, less);
    }
}

/// In one ranking a match does not come before the one at its place in another ranking of the same
/// matches, recent openings aside.
proof fn places_are_not_earlier(
    sort: SortOrder,
    left: Seq<Ranked>,
    right: Seq<Ranked>,
    at: int,
)
    requires
        in_order(sort, left),
        in_order(sort, right),
        left.map_values(|item: Ranked| unopened(item)).to_multiset() == right.map_values(
            |item: Ranked| unopened(item),
        ).to_multiset(),
        0 <= at < left.len(),
        left.len() == right.len(),
    ensures
        relevance::structural_order(sort, left[at].rank, right[at].rank) != Order::Less,
{
    let rank = left[at].rank;
    if relevance::structural_order(sort, rank, right[at].rank) == Order::Less {
        assert forall|i: int| 0 <= i < at + 1 implies relevance::structural_order(
            sort,
            (#[trigger] left[i]).rank,
            rank,
        ) != Order::Greater by {
            if i < at {
                assert(relevance::rank_order(sort, left[i].rank, left[at].rank)
                    != Order::Greater);
            }
            relevance::structural_order_is_total(sort, left[i].rank, rank, rank);
            relevance::structural_order_is_total(sort, rank, rank, rank);
        }
        assert forall|i: int| at <= i < right.len() implies relevance::structural_order(
            sort,
            (#[trigger] right[i]).rank,
            rank,
        ) == Order::Greater by {
            if at < i {
                assert(relevance::rank_order(sort, right[at].rank, right[i].rank)
                    != Order::Greater);
            }
            relevance::structural_order_is_total(sort, right[at].rank, right[i].rank, rank);
            relevance::structural_order_is_total(sort, rank, right[at].rank, right[i].rank);
            relevance::structural_order_is_total(sort, rank, right[i].rank, rank);
        }
        not_behind_is_at_least(sort, left, rank, at + 1);
        not_behind_is_at_most(sort, right, rank, at);
        not_behind_without_openings(sort, left, rank);
        not_behind_without_openings(sort, right, rank);
        not_behind_in_any_order(
            sort,
            left.map_values(|item: Ranked| unopened(item)),
            right.map_values(|item: Ranked| unopened(item)),
            rank,
        );
    }
}

proof fn openings_change_no_match(
    candidates: Seq<Candidate>,
    terms: Seq<Seq<char>>,
    left: Map<u64, u64>,
    right: Map<u64, u64>,
)
    ensures
        matches_of(candidates, terms, left).map_values(|item: Ranked| unopened(item))
            == matches_of(candidates, terms, right).map_values(|item: Ranked| unopened(item)),
    decreases candidates.len(),
{
    let plain = |item: Ranked| unopened(item);
    if candidates.len() > 0 {
        let rest = candidates.drop_last();
        let last = candidates.last();
        openings_change_no_match(rest, terms, left, right);
        assert(matches_of(rest, terms, left).map_values(plain) == matches_of(
            rest,
            terms,
            right,
        ).map_values(plain));
        if last.matches(terms) {
            assert(matches_of(candidates, terms, left).map_values(plain) =~= matches_of(
                rest,
                terms,
                left,
            ).map_values(plain).push(unopened(last.ranked(terms, left))));
            assert(matches_of(candidates, terms, right).map_values(plain) =~= matches_of(
                rest,
                terms,
                right,
            ).map_values(plain).push(unopened(last.ranked(terms, right))));
        }
    } else {
        assert(matches_of(candidates, terms, left).map_values(plain) =~= matches_of(
            candidates,
            terms,
            right,
        ).map_values(plain));
    }
}

/// Recent openings never move a result across the stronger criteria: whatever two histories hold,
/// the rankings that they give are equally long and agree at every place on the class, on the
/// number of terms in the name and on the lengths of name and path.
pub proof fn histories_agree_on_structure(
    sort: SortOrder,
    candidates: Seq<Candidate>,
    terms: Seq<Seq<char>>,
    left: Map<u64, u64>,
    right: Map<u64, u64>,
    at: int,
)
    requires
        0 <= at < ranking(sort, matches_of(candidates, terms, left)).len(),
    ensures
        ranking(sort, matches_of(candidates, terms, left)).len() == ranking(
            sort,
            matches_of(candidates, terms, right),
        ).len(),
        ({
            let one = ranking(sort, matches_of(candidates, terms, left))[at].rank;
            let two = ranking(sort, matches_of(candidates, terms, right))[at].rank;
            &&& one.class == two.class
            &&& one.name_terms == two.name_terms
            &&& one.name.len() == two.name.len()
            &&& one.path.len() == two.path.len()
        }),
{
    let plain = |item: Ranked| unopened(item);
    let found = matches_of(candidates, terms, left);
    let other = matches_of(candidates, terms, right);
    let one = ranking(sort, found);
    let two = ranking(sort, other);
    openings_change_no_match(candidates, terms, left, right);
    assert(found.map_values(plain).len() == other.map_values(plain).len());
    ranking_is_sorted(sort, found);
    ranking_is_sorted(sort, other);
    sorting::same_values_map(one, found, plain);
    sorting::same_values_map(two, other, plain);
    places_are_not_earlier(sort, one, two, at);
    places_are_not_earlier(sort, two, one, at);
    relevance::structural_order_is_total(sort, one[at].rank, two[at].rank, two[at].rank);
}

/// Keeping a frontier while matches come in gives the frontier of all of them.
proof fn frontier_can_be_kept(sort: SortOrder, list: Seq<Ranked>, limit: int, item: Ranked)
    requires
        0 <= limit,
        in_order(sort, list),
    ensures
        frontier(placed(sort, frontier(list, limit), item), limit) == frontier(
            placed(sort, list, item),
            limit,
        ),
{
    if limit < list.len() {
        let kept = list.take(limit);
        let at = slot(sort, list, item.rank);
        slot_separates(sort, list, item.rank);
        if at <= limit {
            assert forall|i: int| at <= i < kept.len() implies relevance::rank_order(
                sort,
                (#[trigger] kept[i]).rank,
                item.rank,
            ) == Order::Greater by {
                assert(kept[i] == list[i]);
            }
            slot_is_unique(sort, kept, item.rank, at);
        } else {
            if limit > 0 {
                assert(relevance::rank_order(sort, list[limit - 1].rank, list[at - 1].rank)
                    != Order::Greater);
                relevance::rank_order_is_total(
                    sort,
                    list[limit - 1].rank,
                    list[at - 1].rank,
                    item.rank,
                );
            }
            slot_is_unique(sort, kept, item.rank, limit);
        }
        assert(frontier(placed(sort, kept, item), limit) =~= frontier(
            placed(sort, list, item),
            limit,
        ));
    }
}

/// A retained match.
struct HeapEntry {
    key: RankKey,
    result: SearchResult,
}

spec fn ranked_list(list: Seq<HeapEntry>) -> Seq<Ranked> {
    list.map_values(|entry: HeapEntry| Ranked { rank: entry.key@, row: entry.result@ })
}

/// The work of one query: candidates stream in, and at most `limit` matches are retained.
pub struct QuerySession {
    terms: Vec<Vec<char>>,
    sort: SortOrder,
    limit: usize,
    kept: Vec<HeapEntry>,
    exact_total: usize,
    max_retained: usize,
    matches: Ghost<Seq<Ranked>>,
}

impl QuerySession {
    /// The retained matches are the frontier of all matches so far, which are counted exactly.
    pub closed spec fn wf(&self) -> bool {
        &&& ranked_list(self.kept@) == frontier(
            ranking(self.sort, self.matches@),
            self.limit as int,
        )
        &&& self.exact_total == self.matches@.len()
        &&& self.max_retained == if self.limit < self.matches@.len() {
            self.limit as int
        } else {
            self.matches@.len() as int
        }
    }

    /// The terms that a match holds.
    pub closed spec fn terms(&self) -> Seq<Seq<char>> {
        text::texts(self.terms@)
    }

    /// The order that was asked for.
    pub closed spec fn order(&self) -> SortOrder {
        self.sort
    }

    /// How many matches are retained at most.
    pub closed spec fn bound(&self) -> int {
        self.limit as int
    }

    /// The matches so far, in the order in which they came.
    pub closed spec fn found(&self) -> Seq<Ranked> {
        self.matches@
    }

    /// The matches that are retained.
    pub closed spec fn retained(&self) -> Seq<Ranked> {
        ranked_list(self.kept@)
    }

    /// At every moment a session retains the frontier of the matches so far, and so no more than
    /// it was asked for.
    pub proof fn retention_is_bounded(&self)
        requires
            self.wf(),
        ensures
            self.retained() == frontier(ranking(self.order(), self.found()), self.bound()),
            self.retained().len() <= self.bound(),
    {
    }

    /// A session that has seen no candidate.
    pub fn new(query: &str, limit: usize, sort: SortOrder) -> (session: QuerySession)
        ensures
            session.wf(),
            session.terms() == terms_of(query@),
            session.order() == sort,
            session.bound() == limit,
            session.found() == Seq::<Ranked>::empty(),
    {
        let normalized = normalize_search_text(query);
        let text = chars_of(normalized.as_str());
        let session = QuerySession {
            terms: split_words(text.as_slice()),
            sort,
            limit,
            kept: Vec::new(),
            exact_total: 0,
            max_retained: 0,
            matches: Ghost(Seq::empty()),
        };
        assert(ranked_list(session.kept@) =~= Seq::<Ranked>::empty());
        session
    }

    /// Takes one candidate in.
    pub fn offer(&mut self, candidate: QueryCandidate, recent_opens: &HashMap<u64, u64>)
        requires
            old(self).wf(),
            old(self).found().len() < usize::MAX,
        ensures
            final(self).wf(),
            final(self).terms() == old(self).terms(),
            final(self).order() == old(self).order(),
            final(self).bound() == old(self).bound(),
            final(self).found() == if candidate@.matches(old(self).terms()) {
                old(self).found().push(candidate@.ranked(old(self).terms(), recent_opens@))
            } else {
                old(self).found()
            },
    {
        let name = chars_of(candidate.normalized_name.as_str());
        let path = chars_of(candidate.normalized_path.as_str());
        if !matches_terms(name.as_slice(), path.as_slice(), &self.terms) {
            return;
        }
        let name_term_count: usize = count_terms_in_name(name.as_slice(), &self.terms);
        let class = classify(name.as_slice(), &self.terms, name_term_count);
        let recent_open: u64 = match recent_opens.get(&candidate.result.entry_id) {
            Some(time) => *time,
            None => 0,
        };
        let key = RankKey {
            class,
            name_term_count,
            recent_open,
            normalized_name: name,
            canonical_path: path,
            size: candidate.result.size,
            created_ns: candidate.result.created_ns,
            modified_ns: candidate.result.modified_ns,
        };
        let ghost item = candidate@.ranked(self.terms(), recent_opens@);
        let ghost before = self.matches@;
        proof {
            ranking_is_sorted(self.sort, before);
            frontier_can_be_kept(
                self.sort,
                ranking(self.sort, before),
                self.limit as int,
                item,
            );
            assert(before.push(item).drop_last() =~= before);
            self.matches@ = before.push(item);
        }
        self.exact_total += 1;
        self.retain(key, candidate.result);
        if self.kept.len() > self.max_retained {
            self.max_retained = self.kept.len();
        }
        proof {
            ranking_is_sorted(self.sort, self.matches@);
            assert(self.kept@.len() == ranked_list(self.kept@).len());
        }
    }

    /// Puts a match in its place and drops what is beyond the limit.
    fn retain(&mut self, key: RankKey, result: SearchResult)
        requires
            in_order(old(self).sort, ranked_list(old(self).kept@)),
            old(self).kept@.len() <= old(self).limit,
        ensures
            ranked_list(final(self).kept@) == frontier(
                placed(
                    old(self).sort,
                    ranked_list(old(self).kept@),
                    (Ranked { rank: key@, row: result@ }),
                ),
                old(self).limit as int,
            ),
            final(self).terms == old(self).terms,
            final(self).sort == old(self).sort,
            final(self).limit == old(self).limit,
            final(self).exact_total == old(self).exact_total,
            final(self).max_retained == old(self).max_retained,
            final(self).matches == old(self).matches,
    {
        let ghost list = ranked_list(self.kept@);
        let ghost item = Ranked { rank: key@, row: result@ };
        let at: usize = self.place_of(&key);
        if at == self.limit {
            assert(ranked_list(self.kept@) =~= frontier(
                placed(self.sort, list, item),
                self.limit as int,
            ));
            return;
        }
        if self.kept.len() == self.limit {
            let _ = self.kept.pop();
        }
        self.kept.insert(at, HeapEntry { key, result });
        assert(ranked_list(self.kept@) =~= frontier(
            placed(self.sort, list, item),
            self.limit as int,
        ));
    }

    /// Finds the place of a match among the retained ones.
    fn place_of(&self, key: &RankKey) -> (at: usize)
        requires
            in_order(self.sort, ranked_list(self.kept@)),
        ensures
            at == slot(self.sort, ranked_list(self.kept@), key@),
            at <= self.kept@.len(),
    {
        let ghost list = ranked_list(self.kept@);
        let mut low: usize = 0;
        let mut high: usize = self.kept.len();
        while low < high
            invariant
                low <= high <= self.kept@.len(),
                list == ranked_list(self.kept@),
                in_order(self.sort, list),
                low > 0 ==> relevance::rank_order(self.sort, list[low - 1].rank, key@)
                    != Order::Greater,
                forall|i: int|
                    high <= i < list.len() ==> relevance::rank_order(
                        self.sort,
                        (#[trigger] list[i]).rank,
                        key@,
                    ) == Order::Greater,
            decreases high - low,
        {
            let middle: usize = low + (high - low) / 2;
            let order = compare_keys(&self.kept[middle].key, key, self.sort);
            assert(list[middle as int].rank == self.kept@[middle as int].key@);
            if order == Order::Greater {
                proof {
                    assert forall|i: int|
                        middle <= i < list.len() implies relevance::rank_order(
                        self.sort,
                        (#[trigger] list[i]).rank,
                        key@,
                    ) == Order::Greater by {
                        if i > middle {
                            assert(relevance::rank_order(
                                self.sort,
                                list[middle as int].rank,
                                list[i].rank,
                            ) != Order::Greater);
                            relevance::rank_order_is_total(
                                self.sort,
                                list[middle as int].rank,
                                list[i].rank,
                                key@,
                            );
                        }
                    }
                }
                high = middle;
            } else {
                low = middle + 1;
            }
        }
        proof {
            slot_is_unique(self.sort, list, key@, low as int);
        }
        low
    }

    /// Publishes what the session found, or no rows where it was cancelled.
    pub fn finish(self, cancelled: bool) -> (results: RankedResults)
        requires
            self.wf(),
        ensures
            results.cancelled == cancelled,
            results.exact_total == self.found().len(),
            results.max_retained == frontier(
                ranking(self.order(), self.found()),
                self.bound(),
            ).len(),
            cancelled ==> results.rows@.len() == 0,
            !cancelled ==> model::rows_of(results.rows@) == shown(
                frontier(ranking(self.order(), self.found()), self.bound()),
            ),
    {
        let mut rows: Vec<SearchResult> = Vec::new();
        let exact_total: usize = self.exact_total;
        let max_retained: usize = self.max_retained;
        let ghost list = ranked_list(self.kept@);
        proof {
            ranking_is_sorted(self.sort, self.matches@);
        }
        if !cancelled {
            for entry in it: self.kept.into_iter()
                invariant
                    ranked_list(it.seq()) == list,
                    model::rows_of(rows@) =~= shown(list).take(it.index()),
            {
                assert(shown(list)[it.index()] == entry.result@) by {
                    assert(ranked_list(it.seq())[it.index()].row == entry.result@);
                }
                let ghost before = rows@;
                rows.push(entry.result);
                assert(model::rows_of(rows@) =~= model::rows_of(before).push(
                    entry.result@,
                ));
            }
        }
        RankedResults { rows, exact_total, max_retained, cancelled }
    }
}

/// What a completed query publishes of some candidates.
pub open spec fn query_rows(
    query: Seq<char>,
    candidates: Seq<Candidate>,
    recent_opens: Map<u64, u64>,
    limit: int,
    sort: SortOrder,
) -> Seq<Row> {
    shown(
        frontier(ranking(sort, matches_of(candidates, terms_of(query), recent_opens)), limit),
    )
}

/// Ranks candidates by relevance and keeps the first `limit`.
pub fn rank_candidates(
    query: &str,
    candidates: Vec<QueryCandidate>,
    recent_opens: &HashMap<u64, u64>,
    limit: usize,
) -> (rows: Vec<SearchResult>)
    ensures
        model::rows_of(rows@) == query_rows(
            query@,
            candidates_of(candidates@),
            recent_opens@,
            limit as int,
            relevance::default_sort(),
        ),
{
    let mut session = QuerySession::new(query, limit, SortOrder::default());
    let ghost terms = terms_of(query@);
    let ghost all = candidates_of(candidates@);
    assert(candidates.len() <= usize::MAX);
    assert(all.take(0) =~= Seq::empty());
    for candidate in it: candidates.into_iter()
        invariant
            candidates_of(it.seq()) == all,
            all.len() <= usize::MAX,
            session.wf(),
            session.terms() == terms,
            session.order() == relevance::default_sort(),
            session.bound() == limit,
            session.found() == matches_of(all.take(it.index()), terms, recent_opens@),
            session.found().len() <= it.index(),
    {
        assert(all.take(it.index() + 1).drop_last() =~= all.take(it.index()));
        assert(all[it.index()] == candidate@);
        session.offer(candidate, recent_opens);
    }
    assert(all.take(all.len() as int) =~= all);
    session.finish(false).rows
}

/// The session of a query has taken in the first `seen` candidates.
pub open spec fn counts_after(
    results: RankedResults,
    seen: int,
    query: Seq<char>,
    candidates: Seq<Candidate>,
    recent_opens: Map<u64, u64>,
    limit: int,
) -> bool {
    let found = matches_of(candidates.take(seen), terms_of(query), recent_opens).len();
    &&& results.exact_total == found
    &&& results.max_retained == if limit < found {
        limit
    } else {
        found as int
    }
}

/// Ranks candidates in the order that was asked for and keeps the first `limit`. The token is
/// looked at before every 256th candidate and at the end; where it was cancelled the result has
/// no rows and counts what was seen until then, which is nothing where no look at the token shows
/// it unset.
pub fn rank_candidates_with_options(
    query: &str,
    candidates: Vec<QueryCandidate>,
    recent_opens: &HashMap<u64, u64>,
    limit: usize,
    sort: SortOrder,
    cancellation: &CancellationToken,
) -> (results: RankedResults)
    ensures
        cancellation.reads(results.cancelled),
        !cancellation.reads(false) ==> results.exact_total == 0 && results.max_retained == 0,
        !results.cancelled ==> model::rows_of(results.rows@) == query_rows(
            query@,
            candidates_of(candidates@),
            recent_opens@,
            limit as int,
            sort,
        ) && counts_after(
            results,
            candidates@.len() as int,
            query@,
            candidates_of(candidates@),
            recent_opens@,
            limit as int,
        ),
        results.cancelled ==> results.rows@.len() == 0 && exists|seen: int|
            0 <= seen <= candidates@.len() && (seen % 256 == 0 || seen == candidates@.len())
                && #[trigger] counts_after(
                results,
                seen,
                query@,
                candidates_of(candidates@),
                recent_opens@,
                limit as int,
            ),
{
    let mut session = QuerySession::new(query, limit, sort);
    let ghost terms = terms_of(query@);
    let ghost all = candidates_of(candidates@);
    assert(candidates.len() <= usize::MAX);
    assert(all.take(0) =~= Seq::empty());
    let mut index: usize = 0;
    for candidate in it: candidates.into_iter()
        invariant
            candidates_of(it.seq()) == all,
            all == candidates_of(candidates@),
            terms == terms_of(query@),
            all.len() <= usize::MAX,
            index == it.index(),
            index > 0 ==> cancellation.reads(false),
            session.wf(),
            session.terms() == terms,
            session.order() == sort,
            session.bound() == limit,
            session.found() == matches_of(all.take(it.index()), terms, recent_opens@),
            session.found().len() <= it.index(),
    {
        if index % 256 == 0 && cancellation.is_cancelled() {
            let ghost found = session.found();
            proof {
                ranking_is_sorted(sort, found);
            }
            let results = session.finish(true);
            assert(counts_after(
                results,
                index as int,
                query@,
                candidates_of(candidates@),
                recent_opens@,
                limit as int,
            ));
            return results;
        }
        assert(all.take(it.index() + 1).drop_last() =~= all.take(it.index()));
        assert(all[it.index()] == candidate@);
        session.offer(candidate, recent_opens);
        index += 1;
    }
    assert(all.take(all.len() as int) =~= all);
    proof {
        ranking_is_sorted(sort, session.found());
    }
    let results = session.finish(cancellation.is_cancelled());
    assert(counts_after(
        results,
        all.len() as int,
        query@,
        candidates_of(candidates@),
        recent_opens@,
        limit as int,
    ));
    results
}

/// Every word of a normalized query can be cut out of the name or out of the path of a candidate.
pub open spec fn holds_every_word(candidate: Candidate, query: Seq<char>) -> bool {
    forall|i: int|
        0 <= i < text::words(unicode::normalized(query)).len() ==> text::can_be_cut_around(
            candidate.name,
            #[trigger] text::words(unicode::normalized(query))[i],
        ) || text::can_be_cut_around(candidate.path, text::words(unicode::normalized(query))[i])
}

/// The places of the candidates that hold every word of a query.
pub open spec fn places_of_matches(candidates: Seq<Candidate>, query: Seq<char>) -> Set<int> {
    Set::new(|i: int| 0 <= i < candidates.len() && holds_every_word(candidates[i], query))
}

/// A candidate is a match exactly where it holds every word of the query.
pub proof fn matches_hold_every_word(candidate: Candidate, query: Seq<char>)
    ensures
        candidate.matches(terms_of(query)) <==> holds_every_word(candidate, query),
{
    relevance::every_term_has_to_match(candidate.name, candidate.path, terms_of(query));
}

/// A match is ranked by what its candidate holds: name, path, size and times, how many places of
/// words stand in its name, and when it was last opened.
pub proof fn matches_are_ranked_by_what_they_hold(
    candidate: Candidate,
    terms: Seq<Seq<char>>,
    recent_opens: Map<u64, u64>,
)
    ensures
        ({
            let item = candidate.ranked(terms, recent_opens);
            let rank = item.rank;
            &&& item.row == candidate.row
            &&& rank.name == candidate.name
            &&& rank.path == candidate.path
            &&& rank.size == candidate.row.size
            &&& rank.created == candidate.row.created_ns
            &&& rank.modified == candidate.row.modified_ns
            &&& rank.class == relevance::class_of(candidate.name, terms)
            &&& rank.name_terms == relevance::places_in_name(candidate.name, terms).len()
            &&& recent_opens.dom().contains(candidate.row.entry_id) ==> rank.recent_open
                == recent_opens[candidate.row.entry_id]
            &&& !recent_opens.dom().contains(candidate.row.entry_id) ==> rank.recent_open == 0
        }),
{
    relevance::every_term_in_the_name_counts(candidate.name, terms);
}

/// The places of the matches among some candidates, in the order of their ranking.
spec fn ranked_places(
    sort: SortOrder,
    candidates: Seq<Candidate>,
    terms: Seq<Seq<char>>,
    recent_opens: Map<u64, u64>,
) -> Seq<int>
    decreases candidates.len(),
{
    if candidates.len() == 0 {
        Seq::empty()
    } else {
        let rest = candidates.drop_last();
        let before = ranked_places(sort, rest, terms, recent_opens);
        if candidates.last().matches(terms) {
            before.insert(
                slot(
                    sort,
                    ranking(sort, matches_of(rest, terms, recent_opens)),
                    candidates.last().ranked(terms, recent_opens).rank,
                ),
                candidates.len() - 1,
            )
        } else {
            before
        }
    }
}

proof fn ranked_places_lead_to_the_matches(
    sort: SortOrder,
    candidates: Seq<Candidate>,
    terms: Seq<Seq<char>>,
    recent_opens: Map<u64, u64>,
)
    ensures
        ({
            let list = ranking(sort, matches_of(candidates, terms, recent_opens));
            let places = ranked_places(sort, candidates, terms, recent_opens);
            &&& places.len() == list.len()
            &&& places.no_duplicates()
            &&& forall|k: int|
                0 <= k < places.len() ==> 0 <= #[trigger] places[k] < candidates.len()
                    && candidates[places[k]].matches(terms) && list[k]
                    == candidates[places[k]].ranked(terms, recent_opens)
            &&& forall|i: int|
                0 <= i < candidates.len() && (#[trigger] candidates[i]).matches(terms)
                    ==> places.contains(i)
        }),
    decreases candidates.len(),
{
    let list = ranking(sort, matches_of(candidates, terms, recent_opens));
    let places = ranked_places(sort, candidates, terms, recent_opens);
    if candidates.len() > 0 {
        let rest = candidates.drop_last();
        let last = candidates.len() - 1;
        let found = matches_of(rest, terms, recent_opens);
        let earlier = ranking(sort, found);
        let before = ranked_places(sort, rest, terms, recent_opens);
        ranked_places_lead_to_the_matches(sort, rest, terms, recent_opens);
        assert forall|i: int| 0 <= i < rest.len() implies rest[i] == candidates[i] by {}
        if candidates.last().matches(terms) {
            let item = candidates.last().ranked(terms, recent_opens);
            slot_separates(sort, earlier, item.rank);
            let at = slot(sort, earlier, item.rank);
            assert(found.push(item).drop_last() =~= found);
            assert(list == earlier.insert(at, item));
            assert forall|k: int| 0 <= k < places.len() implies 0 <= #[trigger] places[k]
                < candidates.len() && candidates[places[k]].matches(terms) && list[k]
                == candidates[places[k]].ranked(terms, recent_opens) by {
                if k < at {
                    assert(places[k] == before[k] && list[k] == earlier[k]);
                } else if k > at {
                    assert(places[k] == before[k - 1] && list[k] == earlier[k - 1]);
                }
            }
            assert(places.no_duplicates()) by {
                assert forall|i: int, j: int|
                    0 <= i < places.len() && 0 <= j < places.len() && i != j implies places[i]
                    != places[j] by {
                    let a = if i < at {
                        i
                    } else {
                        i - 1
                    };
                    let b = if j < at {
                        j
                    } else {
                        j - 1
                    };
                    if i != at {
                        assert(places[i] == before[a]);
                    }
                    if j != at {
                        assert(places[j] == before[b]);
                    }
                    if i != at && j != at {
                        assert(before[a] != before[b]);
                    }
                }
            }
            assert forall|i: int|
                0 <= i < candidates.len() && (#[trigger] candidates[i]).matches(
                    terms,
                ) implies places.contains(i) by {
                if i < last {
                    assert(rest[i].matches(terms));
                    assert(before.contains(i));
                    let k = choose|k: int| 0 <= k < before.len() && before[k] == i;
                    if k < at {
                        assert(places[k] == i);
                    } else {
                        assert(places[k + 1] == i);
                    }
                } else {
                    assert(places[at] == i);
                }
            }
        } else {
            assert forall|i: int|
                0 <= i < candidates.len() && (#[trigger] candidates[i]).matches(
                    terms,
                ) implies places.contains(i) by {
                assert(i < last);
                assert(rest[i].matches(terms));
            }
        }
    }
}

/// A page of results is made of the best matches: there are places of candidates, none of them
/// twice, whose rows it shows one after the other. Each of these candidates holds every word of
/// the query, none comes before one that it should follow, and no other match comes before any of
/// them. The page is full, or it shows every match.
pub proof fn a_page_shows_the_best_matches(
    sort: SortOrder,
    candidates: Seq<Candidate>,
    query: Seq<char>,
    recent_opens: Map<u64, u64>,
    limit: int,
) -> (places: Seq<int>)
    requires
        0 <= limit,
    ensures
        ({
            let rows = query_rows(query, candidates, recent_opens, limit, sort);
            let words = text::words(unicode::normalized(query));
            let all = places_of_matches(candidates, query);
            &&& all.finite()
            &&& rows.len() == if limit < all.len() {
                limit
            } else {
                all.len() as int
            }
            &&& places.len() == rows.len()
            &&& places.no_duplicates()
            &&& forall|k: int|
                0 <= k < places.len() ==> 0 <= #[trigger] places[k] < candidates.len()
                    && holds_every_word(candidates[places[k]], query) && rows[k]
                    == candidates[places[k]].row
            &&& forall|j: int, k: int|
                #![trigger places[j], places[k]]
                0 <= j < k < places.len() ==> relevance::rank_order(
                    sort,
                    candidates[places[j]].ranked(words, recent_opens).rank,
                    candidates[places[k]].ranked(words, recent_opens).rank,
                ) != Order::Greater
            &&& forall|i: int, k: int|
                #![trigger candidates[i], places[k]]
                0 <= i < candidates.len() && holds_every_word(candidates[i], query)
                    && !places.contains(i) && 0 <= k < places.len() ==> relevance::rank_order(
                    sort,
                    candidates[places[k]].ranked(words, recent_opens).rank,
                    candidates[i].ranked(words, recent_opens).rank,
                ) != Order::Greater
        }),
{
    let terms = terms_of(query);
    let list = ranking(sort, matches_of(candidates, terms, recent_opens));
    let full = ranked_places(sort, candidates, terms, recent_opens);
    let rows = query_rows(query, candidates, recent_opens, limit, sort);
    let all = places_of_matches(candidates, query);
    let places = if limit < full.len() {
        full.take(limit)
    } else {
        full
    };
    ranked_places_lead_to_the_matches(sort, candidates, terms, recent_opens);
    ranking_is_sorted(sort, matches_of(candidates, terms, recent_opens));
    assert forall|i: int| 0 <= i < candidates.len() implies ((#[trigger] candidates[i]).matches(
        terms,
    ) <==> holds_every_word(candidates[i], query)) by {
        matches_hold_every_word(candidates[i], query);
    }
    assert(full.to_set() =~= all);
    full.unique_seq_to_set();
    vstd::seq_lib::seq_to_set_is_finite(full);
    assert(forall|k: int| 0 <= k < places.len() ==> #[trigger] places[k] == full[k]);
    assert forall|k: int| 0 <= k < places.len() implies 0 <= #[trigger] places[k]
        < candidates.len() && holds_every_word(candidates[places[k]], query) && rows[k]
        == candidates[places[k]].row by {
        assert(places[k] == full[k]);
        assert(rows[k] == list[k].row);
        matches_are_ranked_by_what_they_hold(candidates[places[k]], terms, recent_opens);
    }
    assert forall|j: int, k: int|
        #![trigger places[j], places[k]]
        0 <= j < k < places.len() implies relevance::rank_order(
        sort,
        candidates[places[j]].ranked(terms, recent_opens).rank,
        candidates[places[k]].ranked(terms, recent_opens).rank,
    ) != Order::Greater by {
        assert(places[j] == full[j] && places[k] == full[k]);
        assert(relevance::rank_order(sort, list[j].rank, list[k].rank) != Order::Greater);
    }
    assert forall|i: int, k: int|
        #![trigger candidates[i], places[k]]
        0 <= i < candidates.len() && holds_every_word(candidates[i], query) && !places.contains(i)
            && 0 <= k < places.len() implies relevance::rank_order(
        sort,
        candidates[places[k]].ranked(terms, recent_opens).rank,
        candidates[i].ranked(terms, recent_opens).rank,
    ) != Order::Greater by {
        assert(candidates[i].matches(terms));
        assert(full.contains(i));
        let m = choose|m: int| 0 <= m < full.len() && full[m] == i;
        if m < places.len() {
            assert(places[m] == i);
        }
        assert(places[k] == full[k]);
        assert(k < m);
        assert(relevance::rank_order(sort, list[k].rank, list[m].rank) != Order::Greater);
    }
    places
}

/// What a finished query counts is exact: the total is the number of places at which candidates
/// hold every word, and as many matches were retained as there are, up to the limit.
pub proof fn finished_counts_are_exact(
    results: RankedResults,
    query: Seq<char>,
    candidates: Seq<Candidate>,
    recent_opens: Map<u64, u64>,
    limit: int,
)
    requires
        0 <= limit,
        counts_after(
            results,
            candidates.len() as int,
            query,
            candidates,
            recent_opens,
            limit,
        ),
    ensures
        results.exact_total == places_of_matches(candidates, query).len(),
        results.max_retained == if limit < places_of_matches(candidates, query).len() {
            limit
        } else {
            places_of_matches(candidates, query).len() as int
        },
{
    let terms = terms_of(query);
    let sort = relevance::default_sort();
    let all = places_of_matches(candidates, query);
    let full = ranked_places(sort, candidates, terms, recent_opens);
    ranked_places_lead_to_the_matches(sort, candidates, terms, recent_opens);
    ranking_is_sorted(sort, matches_of(candidates, terms, recent_opens));
    assert forall|i: int| 0 <= i < candidates.len() implies ((#[trigger] candidates[i]).matches(
        terms,
    ) <==> holds_every_word(candidates[i], query)) by {
        matches_hold_every_word(candidates[i], query);
    }
    assert(full.to_set() =~= all);
    full.unique_seq_to_set();
    assert(candidates.take(candidates.len() as int) =~= candidates);
}

/// A match that none of the others follows comes last, behind those it compares as equal to, and
/// one that all of them follow comes first.
pub proof fn later_ties_come_behind(sort: SortOrder, matches: Seq<Ranked>, item: Ranked)
    ensures
        (forall|i: int|
            0 <= i < matches.len() ==> relevance::rank_order(
                sort,
                (#[trigger] matches[i]).rank,
                item.rank,
            ) != Order::Greater) ==> ranking(sort, matches.push(item)) == ranking(
            sort,
            matches,
        ).push(item),
        (forall|i: int|
            0 <= i < matches.len() ==> relevance::rank_order(
                sort,
                (#[trigger] matches[i]).rank,
                item.rank,
            ) == Order::Greater) ==> ranking(sort, matches.push(item)) == seq![item] + ranking(
            sort,
            matches,
        ),
{
    broadcast use vstd::seq_lib::group_to_multiset_ensures;

    let list = ranking(sort, matches);
    let place = slot(sort, list, item.rank);
    ranking_is_sorted(sort, matches);
    slot_separates(sort, list, item.rank);
    assert(matches.push(item).drop_last() =~= matches);
    assert forall|i: int| 0 <= i < list.len() implies matches.contains(#[trigger] list[i]) by {
        assert(list.contains(list[i]));
        assert(list.to_multiset().count(list[i]) > 0);
        assert(matches.to_multiset().count(list[i]) > 0);
    }
    if forall|i: int|
        0 <= i < matches.len() ==> relevance::rank_order(
            sort,
            (#[trigger] matches[i]).rank,
            item.rank,
        ) != Order::Greater {
        if place < list.len() {
            let k = choose|k: int| 0 <= k < matches.len() && matches[k] == list[place];
            assert(relevance::rank_order(sort, matches[k].rank, item.rank) != Order::Greater);
        }
        assert(list.insert(list.len() as int, item) =~= list.push(item));
    }
    if forall|i: int|
        0 <= i < matches.len() ==> relevance::rank_order(
            sort,
            (#[trigger] matches[i]).rank,
            item.rank,
        ) == Order::Greater {
        if place > 0 {
            let k = choose|k: int| 0 <= k < matches.len() && matches[k] == list[place - 1];
            assert(relevance::rank_order(sort, matches[k].rank, item.rank) == Order::Greater);
        }
        assert(list.insert(0, item) =~= seq![item] + list);
    }
}

} // verus!
