//! Aging: when the ranks add up to more than a ceiling, every rank decays
//! by a fixed factor and entries that fall under a minimum are dropped.

use vstd::prelude::*;
use crate::entry::{EntryView, Epoch, Rank, RANK_ONE};
use crate::store::{
    added, has_path, lemma_position, lemma_total_rank_push, lemma_upserted_total, lookup,
    total_rank, unique_paths, upserted,
};

verus! {

/// The ceiling on the sum of all ranks: 10 000 visits.
pub const AGE_THRESHOLD: u64 = 10_000 * RANK_ONE;

/// The rank under which a decayed entry is dropped: one visit.
pub const AGE_MIN: Rank = RANK_ONE;

/// Numerator of the decay factor 3/4.
pub const AGE_SCALE_NUM: u64 = 3;

/// Denominator of the decay factor 3/4.
pub const AGE_SCALE_DEN: u64 = 4;

/// A rank after one decay step, rounded down to the rank unit.
pub open spec fn decayed_rank(rank: Rank) -> Rank {
    (rank * AGE_SCALE_NUM / AGE_SCALE_DEN as int) as u64
}

/// Computes one decay step of a rank.
pub fn decay(rank: Rank) -> (lower: Rank)
    ensures
        lower == decayed_rank(rank),
        lower <= rank,
{
    let wide: u128 = rank as u128 * AGE_SCALE_NUM as u128 / AGE_SCALE_DEN as u128;
    wide as u64
}

/// An entry after one decay step: only its rank changes.
pub open spec fn decayed_entry(e: EntryView) -> EntryView {
    EntryView { path: e.path, rank: decayed_rank(e.rank), last_accessed: e.last_accessed }
}

/// Whether an entry is kept after a decay step.
pub open spec fn survives(e: EntryView) -> bool {
    e.rank >= AGE_MIN
}

/// The store after one decay step: every rank decayed, and the entries
/// that fell under the minimum dropped.
pub open spec fn decayed(s: Seq<EntryView>) -> Seq<EntryView> {
    s.map_values(|e: EntryView| decayed_entry(e)).filter(|e: EntryView| survives(e))
}

/// The store after the aging engine has run: one decay step if the ranks
/// add up to more than the ceiling, and no change otherwise.
pub open spec fn aged(s: Seq<EntryView>) -> Seq<EntryView> {
    if total_rank(s) > AGE_THRESHOLD {
        decayed(s)
    } else {
        s
    }
}

/// Decay of a store with one more entry at its end.
pub proof fn lemma_decayed_push(s: Seq<EntryView>, e: EntryView)
    ensures
        decayed(s.push(e)) == if survives(decayed_entry(e)) {
            decayed(s).push(decayed_entry(e))
        } else {
            decayed(s)
        },
{
    let f = |e: EntryView| decayed_entry(e);
    let p = |e: EntryView| survives(e);
    assert(s.push(e).map_values(f) =~= s.map_values(f).push(decayed_entry(e)));
    s.map_values(f).lemma_filter_push(decayed_entry(e), p);
}

/// Every entry that is left after a decay step stems from an entry with
/// the same path and time of last access and a rank no lower than its own.
pub proof fn lemma_decayed_sources(s: Seq<EntryView>)
    ensures
        decayed(s).len() <= s.len(),
        forall|k: int|
            0 <= k < decayed(s).len() ==> exists|j: int|
                0 <= j < s.len() && #[trigger] decayed(s)[k] == decayed_entry(#[trigger] s[j]),
    decreases s.len(),
{
    if s.len() == 0 {
        assert(s.map_values(|e: EntryView| decayed_entry(e)) =~= Seq::<EntryView>::empty());
        reveal(Seq::filter);
    } else {
        let front = s.drop_last();
        let e = s.last();
        assert(s =~= front.push(e));
        lemma_decayed_push(front, e);
        lemma_decayed_sources(front);
        assert forall|k: int| 0 <= k < decayed(s).len() implies exists|j: int|
            0 <= j < s.len() && #[trigger] decayed(s)[k] == decayed_entry(#[trigger] s[j]) by {
            if k < decayed(front).len() {
                let j = choose|j: int|
                    0 <= j < front.len() && #[trigger] decayed(front)[k] == decayed_entry(
                        #[trigger] front[j],
                    );
                assert(decayed(s)[k] == decayed_entry(s[j]));
            } else {
                assert(decayed(s)[k] == decayed_entry(s[s.len() - 1]));
            }
        }
    }
}

/// A decay step keeps paths unique.
pub proof fn lemma_decayed_unique(s: Seq<EntryView>)
    requires
        unique_paths(s),
    ensures
        unique_paths(decayed(s)),
    decreases s.len(),
{
    if s.len() == 0 {
        lemma_decayed_sources(s);
    } else {
        let front = s.drop_last();
        let e = s.last();
        assert(s =~= front.push(e));
        lemma_decayed_push(front, e);
        assert(unique_paths(front)) by {
            assert forall|i: int, j: int| 0 <= i < j < front.len() implies (#[trigger] front[i]).path
                != (#[trigger] front[j]).path by {
                assert(s[i].path != s[j].path);
            }
        }
        lemma_decayed_unique(front);
        lemma_decayed_sources(front);
        let d = decayed(s);
        assert forall|i: int, j: int| 0 <= i < j < d.len() implies (#[trigger] d[i]).path != (
        #[trigger] d[j]).path by {
            if j >= decayed(front).len() {
                let src = choose|src: int|
                    0 <= src < front.len() && #[trigger] decayed(front)[i] == decayed_entry(
                        #[trigger] front[src],
                    );
                assert(s[src].path != s[s.len() - 1].path);
            }
        }
    }
}

/// What a store with one more entry at its end holds for each path.
proof fn lemma_lookup_push(s: Seq<EntryView>, e: EntryView, path: Seq<char>)
    requires
        unique_paths(s.push(e)),
    ensures
        lookup(s.push(e), path) == if path == e.path {
            Some(e)
        } else {
            lookup(s, path)
        },
{
    let t = s.push(e);
    assert(unique_paths(s)) by {
        assert forall|i: int, j: int| 0 <= i < j < s.len() implies (#[trigger] s[i]).path != (
        #[trigger] s[j]).path by {
            assert(t[i].path != t[j].path);
        }
    }
    if path == e.path {
        lemma_position(t, s.len() as int);
    } else if has_path(s, path) {
        let q = choose|q: int| 0 <= q < s.len() && (#[trigger] s[q]).path == path;
        lemma_position(s, q);
        assert(t[q] == s[q]);
        lemma_position(t, q);
    } else {
        assert forall|k: int| 0 <= k < t.len() implies (#[trigger] t[k]).path != path by {
            if k < s.len() {
                assert(t[k] == s[k]);
            }
        }
    }
}

/// What a decay step does to each path: a path holds its entry with the
/// decayed rank if that rank reaches the minimum, and nothing otherwise.
pub proof fn lemma_decayed_lookup(s: Seq<EntryView>, path: Seq<char>)
    requires
        unique_paths(s),
    ensures
        lookup(decayed(s), path) == match lookup(s, path) {
            Some(e) => if survives(decayed_entry(e)) {
                Some(decayed_entry(e))
            } else {
                None
            },
            None => None,
        },
    decreases s.len(),
{
    lemma_decayed_sources(s);
    if s.len() > 0 {
        let front = s.drop_last();
        let e = s.last();
        assert(s =~= front.push(e));
        lemma_decayed_push(front, e);
        lemma_lookup_push(front, e, path);
        assert(unique_paths(front)) by {
            assert forall|i: int, j: int| 0 <= i < j < front.len() implies (#[trigger] front[i]).path
                != (#[trigger] front[j]).path by {
                assert(s[i].path != s[j].path);
            }
        }
        lemma_decayed_lookup(front, path);
        lemma_decayed_unique(s);
        if survives(decayed_entry(e)) {
            lemma_lookup_push(decayed(front), decayed_entry(e), path);
        } else if path == e.path {
            lemma_decayed_sources(front);
            let d = decayed(front);
            assert forall|k: int| 0 <= k < d.len() implies (#[trigger] d[k]).path != path by {
                let j = choose|j: int|
                    0 <= j < front.len() && #[trigger] d[k] == decayed_entry(#[trigger] front[j]);
                assert(s[j].path != s[s.len() - 1].path);
            }
        }
    }
}

/// A decay step brings the sum of all ranks down to three quarters of what
/// it was, or lower.
pub proof fn lemma_decayed_total(s: Seq<EntryView>)
    ensures
        AGE_SCALE_DEN * total_rank(decayed(s)) <= AGE_SCALE_NUM * total_rank(s),
    decreases s.len(),
{
    if s.len() == 0 {
        lemma_decayed_sources(s);
    } else {
        let front = s.drop_last();
        let e = s.last();
        assert(s =~= front.push(e));
        lemma_decayed_push(front, e);
        lemma_decayed_total(front);
        lemma_total_rank_push(front, e);
        lemma_total_rank_push(decayed(front), decayed_entry(e));
    }
}

/// Aging bound: where the ranks add up to no more than four thirds of the
/// ceiling, they add up to no more than the ceiling after the engine has
/// run.
pub proof fn lemma_aging_bound(s: Seq<EntryView>)
    requires
        AGE_SCALE_NUM * total_rank(s) <= AGE_SCALE_DEN * AGE_THRESHOLD,
    ensures
        total_rank(aged(s)) <= AGE_THRESHOLD,
{
    lemma_decayed_total(s);
}

/// Aging bound of `add`: a store whose ranks add up to no more than the
/// ceiling still does so after a visit of a weight up to a third of the
/// ceiling.
pub proof fn lemma_add_keeps_ceiling(
    s: Seq<EntryView>,
    path: Seq<char>,
    weight: Rank,
    now: Epoch,
)
    requires
        total_rank(s) <= AGE_THRESHOLD,
        AGE_SCALE_NUM * weight <= AGE_THRESHOLD,
    ensures
        total_rank(added(s, path, weight, now)) <= AGE_THRESHOLD,
{
    lemma_upserted_total(s, path, weight, now);
    lemma_aging_bound(upserted(s, path, weight, now));
}

/// Aging never raises a rank: every entry of the aged store stems from an
/// entry of the same path and time of last access whose rank was no lower,
/// and no path is new.
pub proof fn lemma_aging_never_raises(s: Seq<EntryView>)
    ensures
        aged(s).len() <= s.len(),
        forall|k: int|
            0 <= k < aged(s).len() ==> exists|j: int|
                0 <= j < s.len() && (#[trigger] s[j]).path == (#[trigger] aged(s)[k]).path
                    && aged(s)[k].rank <= s[j].rank && aged(s)[k].last_accessed
                    == s[j].last_accessed,
{
    lemma_decayed_sources(s);
    assert forall|k: int| 0 <= k < aged(s).len() implies exists|j: int|
        0 <= j < s.len() && (#[trigger] s[j]).path == (#[trigger] aged(s)[k]).path && aged(
            s,
        )[k].rank <= s[j].rank && aged(s)[k].last_accessed == s[j].last_accessed by {
        if total_rank(s) > AGE_THRESHOLD {
            let j = choose|j: int|
                0 <= j < s.len() && #[trigger] decayed(s)[k] == decayed_entry(#[trigger] s[j]);
            assert(s[j].path == aged(s)[k].path);
        } else {
            assert(s[k].path == aged(s)[k].path);
        }
    }
}

/// Aging is idempotent below the ceiling: a store whose ranks add up to no
/// more than the ceiling is left as it is.
pub proof fn lemma_aged_below_ceiling(s: Seq<EntryView>)
    requires
        total_rank(s) <= AGE_THRESHOLD,
    ensures
        aged(s) == s,
{
}

/// Aging keeps paths unique.
pub proof fn lemma_aged_unique(s: Seq<EntryView>)
    requires
        unique_paths(s),
    ensures
        unique_paths(aged(s)),
{
    lemma_decayed_unique(s);
}

} // verus!
