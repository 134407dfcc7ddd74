//! Ranking: which entries a query offers, and in which order.

use vstd::prelude::*;
use vstd::string::*;
use crate::entry::{frecency, views, DirEntry, EntryView, Epoch};
use crate::error::ErrorKind;
use crate::query::{
    byte_views, case_sensitive, matches_prepared, needles, path_matches, prepare, texts,
};
use crate::store::Store;
use crate::text::{byte_len, same_text, utf8};

verus! {

/// What is asked of the store.
pub struct Query {
    /// The keywords, in the order in which they must stand in a path.
    pub keywords: Vec<String>,
    /// A path that is never offered, such as the current directory.
    pub exclude: Option<String>,
    /// Whether paths that are no longer on disk are offered too.
    pub include_missing: bool,
}

/// A `Query` as plain mathematical values.
pub struct QueryView {
    pub keywords: Seq<Seq<char>>,
    pub exclude: Option<Seq<char>>,
    pub include_missing: bool,
}

impl View for Query {
    type V = QueryView;

    open spec fn view(&self) -> QueryView {
        QueryView {
            keywords: texts(self.keywords@),
            exclude: match self.exclude {
                Some(path) => Some(path@),
                None => None,
            },
            include_missing: self.include_missing,
        }
    }
}

/// Whether the entry at index `i` is on disk, by the flags that the caller
/// gathered: an entry without a flag counts as missing.
pub open spec fn present(on_disk: Seq<bool>, i: int) -> bool {
    0 <= i < on_disk.len() && on_disk[i]
}

/// The query offers the entry: the keywords match its path, the path is not
/// the excluded one, and it is on disk unless missing paths are asked for.
pub open spec fn is_candidate(q: QueryView, e: EntryView, on_disk: bool) -> bool {
    &&& path_matches(e.path, q.keywords)
    &&& q.exclude != Some(e.path)
    &&& (on_disk || q.include_missing)
}

/// The query offers the entry at index `i` of the store.
pub open spec fn candidate_at(s: Seq<EntryView>, q: QueryView, on_disk: Seq<bool>, i: int) -> bool {
    0 <= i < s.len() && is_candidate(q, s[i], present(on_disk, i))
}

/// The entry at index `i` comes before the entry at index `j`: it has the
/// higher score; or the same score and the shorter path; or the same score
/// and length, and stands earlier in the store.
pub open spec fn outranks(s: Seq<EntryView>, now: Epoch, i: int, j: int) -> bool {
    let score_i = frecency(s[i].rank, s[i].last_accessed, now);
    let score_j = frecency(s[j].rank, s[j].last_accessed, now);
    let len_i = utf8(s[i].path).len();
    let len_j = utf8(s[j].path).len();
    score_i > score_j || (score_i == score_j && (len_i < len_j || (len_i == len_j && i < j)))
}

/// `order` lists the indices of exactly the entries that the query offers,
/// each before all those that it outranks.
pub open spec fn is_ranking(
    s: Seq<EntryView>,
    q: QueryView,
    on_disk: Seq<bool>,
    now: Epoch,
    order: Seq<int>,
) -> bool {
    &&& forall|k: int| 0 <= k < order.len() ==> candidate_at(s, q, on_disk, #[trigger] order[k])
    &&& forall|i: int| #[trigger] candidate_at(s, q, on_disk, i) ==> order.contains(i)
    &&& forall|a: int, b: int|
        0 <= a < b < order.len() ==> outranks(s, now, #[trigger] order[a], #[trigger] order[b])
}

/// The entry at index `i` is offered and outranks every other entry that is.
pub open spec fn is_best(
    s: Seq<EntryView>,
    q: QueryView,
    on_disk: Seq<bool>,
    now: Epoch,
    i: int,
) -> bool {
    &&& candidate_at(s, q, on_disk, i)
    &&& forall|j: int| #[trigger] candidate_at(s, q, on_disk, j) && j != i ==> outranks(s, now, i, j)
}

/// An entry that a query offers.
#[derive(Debug, PartialEq, Eq)]
pub struct Match {
    /// The index of the entry in the store.
    pub index: usize,
    /// The path of the entry.
    pub path: String,
    /// The frecency score of the entry, in score units.
    pub score: u128,
}

/// The match names the entry at its index, with that entry's score.
pub open spec fn describes(s: Seq<EntryView>, now: Epoch, m: Match) -> bool {
    &&& m.index < s.len()
    &&& m.path@ == s[m.index as int].path
    &&& m.score == frecency(s[m.index as int].rank, s[m.index as int].last_accessed, now)
}

/// The store indices of a list of matches.
pub open spec fn indices(found: Seq<Match>) -> Seq<int> {
    found.map_values(|m: Match| m.index as int)
}

/// What a query returns.
#[derive(Debug, PartialEq, Eq)]
pub enum Answer {
    /// The best match.
    Single(Match),
    /// All matches, best first.
    List(Vec<Match>),
}

/// Exclusion: no ranking holds an entry whose path is the excluded one.
pub proof fn lemma_excluded_never_ranked(
    s: Seq<EntryView>,
    q: QueryView,
    on_disk: Seq<bool>,
    now: Epoch,
    order: Seq<int>,
    k: int,
)
    requires
        is_ranking(s, q, on_disk, now, order),
        0 <= k < order.len(),
    ensures
        q.exclude != Some(s[order[k]].path),
{
    assert(candidate_at(s, q, on_disk, order[k]));
}

/// Exclusion: the best match never has the excluded path, whatever its
/// score.
pub proof fn lemma_excluded_never_best(
    s: Seq<EntryView>,
    q: QueryView,
    on_disk: Seq<bool>,
    now: Epoch,
    i: int,
)
    requires
        is_best(s, q, on_disk, now, i),
    ensures
        q.exclude != Some(s[i].path),
{
}

/// The best match is the head of every ranking.
pub proof fn lemma_best_heads_ranking(
    s: Seq<EntryView>,
    q: QueryView,
    on_disk: Seq<bool>,
    now: Epoch,
    order: Seq<int>,
    i: int,
)
    requires
        is_ranking(s, q, on_disk, now, order),
        is_best(s, q, on_disk, now, i),
    ensures
        order.len() > 0,
        order[0] == i,
{
    assert(order.contains(i));
    let k = choose|k: int| 0 <= k < order.len() && order[k] == i;
    if k > 0 {
        assert(outranks(s, now, order[0], order[k]));
        assert(candidate_at(s, q, on_disk, order[0]));
    }
}

/// Two rankings agree on their first `n` indices.
proof fn lemma_rankings_agree(
    s: Seq<EntryView>,
    q: QueryView,
    on_disk: Seq<bool>,
    now: Epoch,
    one: Seq<int>,
    other: Seq<int>,
    n: int,
)
    requires
        is_ranking(s, q, on_disk, now, one),
        is_ranking(s, q, on_disk, now, other),
        0 <= n <= one.len(),
        n <= other.len(),
    ensures
        forall|j: int| 0 <= j < n ==> one[j] == other[j],
    decreases n,
{
    if n > 0 {
        let k = n - 1;
        lemma_rankings_agree(s, q, on_disk, now, one, other, k);
        let x = one[k];
        let y = other[k];
        assert(candidate_at(s, q, on_disk, x));
        assert(candidate_at(s, q, on_disk, y));
        assert(other.contains(x));
        assert(one.contains(y));
        let m = choose|m: int| 0 <= m < other.len() && other[m] == x;
        let p = choose|p: int| 0 <= p < one.len() && one[p] == y;
        if m < k {
            assert(outranks(s, now, one[m], one[k]));
        } else if p < k {
            assert(outranks(s, now, other[p], other[k]));
        } else if m > k && p > k {
            assert(outranks(s, now, other[k], other[m]));
            assert(outranks(s, now, one[k], one[p]));
        }
    }
}

/// A query has one ranking: `is_ranking` holds of no two orders.
pub proof fn lemma_ranking_unique(
    s: Seq<EntryView>,
    q: QueryView,
    on_disk: Seq<bool>,
    now: Epoch,
    one: Seq<int>,
    other: Seq<int>,
)
    requires
        is_ranking(s, q, on_disk, now, one),
        is_ranking(s, q, on_disk, now, other),
    ensures
        one == other,
{
    let n = if one.len() <= other.len() {
        one.len() as int
    } else {
        other.len() as int
    };
    lemma_rankings_agree(s, q, on_disk, now, one, other, n);
    if one.len() > n {
        let x = one[n];
        assert(candidate_at(s, q, on_disk, x));
        assert(other.contains(x));
        let m = choose|m: int| 0 <= m < other.len() && other[m] == x;
        assert(outranks(s, now, one[m], one[n]));
    }
    if other.len() > n {
        let y = other[n];
        assert(candidate_at(s, q, on_disk, y));
        assert(one.contains(y));
        let p = choose|p: int| 0 <= p < one.len() && one[p] == y;
        assert(outranks(s, now, other[p], other[n]));
    }
    assert(one =~= other);
}

/// Whether the query offers the entry.
fn offers(
    query: &Query,
    keywords: &Vec<Vec<u8>>,
    sensitive: bool,
    entry: &DirEntry,
    on_disk: bool,
) -> (offered: bool)
    requires
        byte_views(keywords@) == needles(query@.keywords),
        sensitive == case_sensitive(query@.keywords),
    ensures
        offered == is_candidate(query@, entry@, on_disk),
{
    if !on_disk && !query.include_missing {
        return false;
    }
    let excluded = match &query.exclude {
        Some(path) => same_text(path.as_str(), entry.path.as_str()),
        None => false,
    };
    if excluded {
        return false;
    }
    matches_prepared(entry.path.as_str(), keywords, sensitive)
}

/// Whether an entry of the given score and path length comes before `other`,
/// which stands earlier in the store.
fn comes_before(score: u128, len: usize, other: &Match) -> (before: bool)
    ensures
        before == (score > other.score || (score == other.score && len < utf8(other.path@).len())),
{
    score > other.score || (score == other.score && len < byte_len(other.path.as_str()))
}

/// The flag of the entry at index `i`.
fn flag(on_disk: &Vec<bool>, i: usize) -> (set: bool)
    ensures
        set == present(on_disk@, i as int),
{
    i < on_disk.len() && on_disk[i]
}

/// All entries that the query offers, best first. `on_disk[i]` says whether
/// the path of the entry at index `i` is on disk.
pub fn ranked(store: &Store, query: &Query, on_disk: &Vec<bool>, now: Epoch) -> (found: Vec<Match>)
    ensures
        is_ranking(store@, query@, on_disk@, now, indices(found@)),
        forall|k: int| 0 <= k < found@.len() ==> describes(store@, now, #[trigger] found@[k]),
        forall|k: int| 0 <= k < found@.len() ==> query@.exclude != Some((#[trigger] found@[k]).path@),
{
    let entries = store.entries();
    let ghost s = store@;
    let ghost q = query@;
    let (keywords, sensitive) = prepare(&query.keywords);
    let mut found: Vec<Match> = Vec::new();
    let mut i: usize = 0;
    while i < entries.len()
        invariant
            i <= entries@.len(),
            s == views(entries@),
            q == query@,
            byte_views(keywords@) == needles(q.keywords),
            sensitive == case_sensitive(q.keywords),
            forall|k: int|
                0 <= k < found@.len() ==> (#[trigger] found@[k]).index < i && candidate_at(
                    s,
                    q,
                    on_disk@,
                    found@[k].index as int,
                ) && describes(s, now, found@[k]),
            forall|j: int|
                0 <= j < i && #[trigger] candidate_at(s, q, on_disk@, j) ==> indices(
                    found@,
                ).contains(j),
            forall|a: int, b: int|
                0 <= a < b < found@.len() ==> outranks(
                    s,
                    now,
                    (#[trigger] found@[a]).index as int,
                    (#[trigger] found@[b]).index as int,
                ),
        decreases entries@.len() - i,
    {
        let entry = &entries[i];
        assert(entry@ == s[i as int]);
        if offers(query, &keywords, sensitive, entry, flag(on_disk, i)) {
            let score = entry.score(now);
            let len = byte_len(entry.path.as_str());
            let mut p: usize = 0;
            while p < found.len() && !comes_before(score, len, &found[p])
                invariant
                    p <= found@.len(),
                    i < s.len(),
                    score == frecency(s[i as int].rank, s[i as int].last_accessed, now),
                    len == utf8(s[i as int].path).len(),
                    forall|k: int|
                        0 <= k < found@.len() ==> (#[trigger] found@[k]).index < i && describes(
                            s,
                            now,
                            found@[k],
                        ),
                    forall|a: int|
                        0 <= a < p ==> outranks(
                            s,
                            now,
                            (#[trigger] found@[a]).index as int,
                            i as int,
                        ),
                decreases found@.len() - p,
            {
                p += 1;
            }
            let ghost before = found@;
            let hit = Match { index: i, path: entry.path.clone(), score };
            found.insert(p, hit);
            proof {
                let after = found@;
                assert forall|k: int| 0 <= k < after.len() implies (#[trigger] after[k]).index < i
                    + 1 && candidate_at(s, q, on_disk@, after[k].index as int) && describes(
                    s,
                    now,
                    after[k],
                ) by {
                    if k < p {
                        assert(after[k] == before[k]);
                    } else if k > p {
                        assert(after[k] == before[k - 1]);
                    }
                }
                assert forall|a: int, b: int| 0 <= a < b < after.len() implies outranks(
                    s,
                    now,
                    (#[trigger] after[a]).index as int,
                    (#[trigger] after[b]).index as int,
                ) by {
                    let from_a = if a < p {
                        a
                    } else {
                        a - 1
                    };
                    let from_b = if b < p {
                        b
                    } else {
                        b - 1
                    };
                    if a != p {
                        assert(after[a] == before[from_a]);
                    }
                    if b != p {
                        assert(after[b] == before[from_b]);
                    }
                    if a == p {
                        assert(outranks(s, now, i as int, before[p as int].index as int));
                        if from_b > p {
                            assert(outranks(
                                s,
                                now,
                                before[p as int].index as int,
                                before[from_b].index as int,
                            ));
                        }
                    } else if b == p {
                        assert(outranks(s, now, before[from_a].index as int, i as int));
                    } else {
                        assert(outranks(
                            s,
                            now,
                            before[from_a].index as int,
                            before[from_b].index as int,
                        ));
                    }
                }
                assert forall|j: int|
                    0 <= j < i + 1 && #[trigger] candidate_at(s, q, on_disk@, j) implies indices(
                    after,
                ).contains(j) by {
                    if j == i {
                        assert(indices(after)[p as int] == j);
                    } else {
                        assert(indices(before).contains(j));
                        let k = choose|k: int|
                            0 <= k < indices(before).len() && indices(before)[k] == j;
                        if k < p {
                            assert(after[k] == before[k]);
                            assert(indices(after)[k] == j);
                        } else {
                            assert(after[k + 1] == before[k]);
                            assert(indices(after)[k + 1] == j);
                        }
                    }
                }
            }
        }
        i += 1;
    }
    proof {
        let order = indices(found@);
        assert forall|k: int| 0 <= k < order.len() implies candidate_at(
            s,
            q,
            on_disk@,
            #[trigger] order[k],
        ) by {
            assert(found@[k].index < i);
        }
        assert forall|a: int, b: int| 0 <= a < b < order.len() implies outranks(
            s,
            now,
            #[trigger] order[a],
            #[trigger] order[b],
        ) by {
            assert(outranks(s, now, found@[a].index as int, found@[b].index as int));
        }
        assert forall|k: int| 0 <= k < found@.len() implies q.exclude != Some(
            (#[trigger] found@[k]).path@,
        ) by {
            assert(candidate_at(s, q, on_disk@, found@[k].index as int));
        }
    }
    found
}

/// The entry that the query offers and that outranks all others it offers.
/// Fails with `NoMatch` if the query offers none.
pub fn best(store: &Store, query: &Query, on_disk: &Vec<bool>, now: Epoch) -> (found: Result<
    Match,
    ErrorKind,
>)
    ensures
        match found {
            Ok(m) => {
                &&& is_best(store@, query@, on_disk@, now, m.index as int)
                &&& describes(store@, now, m)
                &&& query@.exclude != Some(m.path@)
            },
            Err(e) => e == ErrorKind::NoMatch && forall|j: int|
                !#[trigger] candidate_at(store@, query@, on_disk@, j),
        },
{
    let entries = store.entries();
    let ghost s = store@;
    let ghost q = query@;
    let (keywords, sensitive) = prepare(&query.keywords);
    let mut lead: Option<Match> = None;
    let mut i: usize = 0;
    while i < entries.len()
        invariant
            i <= entries@.len(),
            s == views(entries@),
            q == query@,
            byte_views(keywords@) == needles(q.keywords),
            sensitive == case_sensitive(q.keywords),
            match lead {
                Some(m) => {
                    &&& m.index < i
                    &&& describes(s, now, m)
                    &&& candidate_at(s, q, on_disk@, m.index as int)
                    &&& forall|j: int|
                        0 <= j < i && #[trigger] candidate_at(s, q, on_disk@, j) && j != m.index
                            ==> outranks(s, now, m.index as int, j)
                },
                None => forall|j: int| 0 <= j < i ==> !#[trigger] candidate_at(s, q, on_disk@, j),
            },
        decreases entries@.len() - i,
    {
        let entry = &entries[i];
        assert(entry@ == s[i as int]);
        if offers(query, &keywords, sensitive, entry, flag(on_disk, i)) {
            let score = entry.score(now);
            let len = byte_len(entry.path.as_str());
            let takes_lead = match &lead {
                Some(m) => comes_before(score, len, m),
                None => true,
            };
            if takes_lead {
                lead = Some(Match { index: i, path: entry.path.clone(), score });
            }
        }
        i += 1;
    }
    match lead {
        Some(m) => Ok(m),
        None => Err(ErrorKind::NoMatch),
    }
}

/// Answers a query: the full ranking if `list_all` is set, and the best
/// match otherwise, which fails with `NoMatch` if nothing matches.
pub fn query(
    store: &Store,
    request: &Query,
    on_disk: &Vec<bool>,
    now: Epoch,
    list_all: bool,
) -> (answer: Result<Answer, ErrorKind>)
    ensures
        match answer {
            Ok(Answer::List(found)) => {
                &&& list_all
                &&& is_ranking(store@, request@, on_disk@, now, indices(found@))
                &&& forall|k: int|
                    0 <= k < found@.len() ==> describes(store@, now, #[trigger] found@[k])
                &&& forall|k: int|
                    0 <= k < found@.len() ==> request@.exclude != Some(
                        (#[trigger] found@[k]).path@,
                    )
            },
            Ok(Answer::Single(m)) => {
                &&& !list_all
                &&& is_best(store@, request@, on_disk@, now, m.index as int)
                &&& describes(store@, now, m)
                &&& request@.exclude != Some(m.path@)
            },
            Err(e) => {
                &&& !list_all
                &&& e == ErrorKind::NoMatch
                &&& forall|j: int| !#[trigger] candidate_at(store@, request@, on_disk@, j)
            },
        },
{
    if list_all {
        Ok(Answer::List(ranked(store, request, on_disk, now)))
    } else {
        match best(store, request, on_disk, now) {
            Ok(m) => Ok(Answer::Single(m)),
            Err(e) => Err(e),
        }
    }
}

} // verus!
