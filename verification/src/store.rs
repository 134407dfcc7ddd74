//! The entry store: directory entries keyed by path.

use vstd::prelude::*;
use crate::aging::{
    aged, decay, decayed, decayed_entry, lemma_add_keeps_ceiling, lemma_aging_bound,
    lemma_decayed_push, lemma_decayed_sources, lemma_decayed_unique, AGE_MIN, AGE_SCALE_DEN,
    AGE_SCALE_NUM, AGE_THRESHOLD,
};
use crate::entry::{views, DirEntry, EntryView, Epoch, Rank, RANK_ONE};
use crate::error::ErrorKind;
use crate::text::same_text;

verus! {

/// No two entries share a path.
pub open spec fn unique_paths(s: Seq<EntryView>) -> bool {
    forall|i: int, j: int| 0 <= i < j < s.len() ==> (#[trigger] s[i]).path != (#[trigger] s[j]).path
}

/// Some entry of `s` has the path `path`.
pub open spec fn has_path(s: Seq<EntryView>, path: Seq<char>) -> bool {
    exists|i: int| 0 <= i < s.len() && (#[trigger] s[i]).path == path
}

/// Where the entry for `path` stands in `s`, if `s` has one.
pub open spec fn position(s: Seq<EntryView>, path: Seq<char>) -> int {
    choose|i: int| 0 <= i < s.len() && (#[trigger] s[i]).path == path
}

/// The entry stored for `path`.
pub open spec fn lookup(s: Seq<EntryView>, path: Seq<char>) -> Option<EntryView> {
    if has_path(s, path) {
        Some(s[position(s, path)])
    } else {
        None
    }
}

/// The sum of two ranks, held at the largest rank where it would exceed it.
pub open spec fn rank_sum(a: Rank, b: Rank) -> Rank {
    if a + b > u64::MAX {
        u64::MAX
    } else {
        (a + b) as u64
    }
}

/// The store after a visit of weight `delta` to `path` at `timestamp`: a
/// stored entry gains the weight and takes the new timestamp, a new path is
/// appended with the weight as its rank.
pub open spec fn upserted(s: Seq<EntryView>, path: Seq<char>, delta: Rank, timestamp: Epoch) -> Seq<
    EntryView,
> {
    if has_path(s, path) {
        let i = position(s, path);
        s.update(
            i,
            EntryView { path, rank: rank_sum(s[i].rank, delta), last_accessed: timestamp },
        )
    } else {
        s.push(EntryView { path, rank: delta, last_accessed: timestamp })
    }
}

/// The store without the entry for `path`.
pub open spec fn without(s: Seq<EntryView>, path: Seq<char>) -> Seq<EntryView> {
    if has_path(s, path) {
        s.remove(position(s, path))
    } else {
        s
    }
}

/// The sum of all ranks.
pub open spec fn total_rank(s: Seq<EntryView>) -> nat
    decreases s.len(),
{
    if s.len() == 0 {
        0
    } else {
        total_rank(s.drop_last()) + s.last().rank as nat
    }
}

/// The store after a visit followed by a run of the aging engine.
pub open spec fn added(s: Seq<EntryView>, path: Seq<char>, weight: Rank, now: Epoch) -> Seq<
    EntryView,
> {
    aged(upserted(s, path, weight, now))
}

/// An import record is well formed if it names a path.
pub open spec fn well_formed_record(record: EntryView) -> bool {
    record.path.len() > 0
}

/// The store after the records have been added in turn, each with its
/// rank as the weight and its time of last access as the time of the visit.
pub open spec fn imported(s: Seq<EntryView>, records: Seq<EntryView>) -> Seq<EntryView>
    decreases records.len(),
{
    if records.len() == 0 {
        s
    } else {
        let r = records.last();
        added(imported(s, records.drop_last()), r.path, r.rank, r.last_accessed)
    }
}

/// With unique paths, an entry's index is the position of its path.
pub proof fn lemma_position(s: Seq<EntryView>, i: int)
    requires
        unique_paths(s),
        0 <= i < s.len(),
    ensures
        has_path(s, s[i].path),
        position(s, s[i].path) == i,
{
    let j = position(s, s[i].path);
    assert(0 <= j < s.len() && s[j].path == s[i].path);
    if j < i {
        assert(s[j].path != s[i].path);
    } else if i < j {
        assert(s[i].path != s[j].path);
    }
}

/// The sum of all ranks grows by the rank of an appended entry.
pub proof fn lemma_total_rank_push(s: Seq<EntryView>, e: EntryView)
    ensures
        total_rank(s.push(e)) == total_rank(s) + e.rank,
{
    assert(s.push(e).drop_last() =~= s);
}

/// A visit keeps paths unique.
pub proof fn lemma_upserted_unique(s: Seq<EntryView>, path: Seq<char>, delta: Rank, timestamp: Epoch)
    requires
        unique_paths(s),
    ensures
        unique_paths(upserted(s, path, delta, timestamp)),
{
    let t = upserted(s, path, delta, timestamp);
    if has_path(s, path) {
        let p = position(s, path);
        assert forall|i: int, j: int| 0 <= i < j < t.len() implies (#[trigger] t[i]).path != (
        #[trigger] t[j]).path by {
            assert(s[i].path != s[j].path);
        }
    } else {
        assert forall|i: int, j: int| 0 <= i < j < t.len() implies (#[trigger] t[i]).path != (
        #[trigger] t[j]).path by {
            if j < s.len() {
                assert(s[i].path != s[j].path);
            } else {
                assert(s[i].path != path);
            }
        }
    }
}

/// Removing an entry keeps paths unique.
pub proof fn lemma_without_unique(s: Seq<EntryView>, path: Seq<char>)
    requires
        unique_paths(s),
    ensures
        unique_paths(without(s, path)),
        !has_path(without(s, path), path),
{
    let t = without(s, path);
    if has_path(s, path) {
        let p = position(s, path);
        assert forall|i: int, j: int| 0 <= i < j < t.len() implies (#[trigger] t[i]).path != (
        #[trigger] t[j]).path by {
            let si = if i < p { i } else { i + 1 };
            let sj = if j < p { j } else { j + 1 };
            assert(s[si].path != s[sj].path);
        }
        assert forall|i: int| 0 <= i < t.len() implies (#[trigger] t[i]).path != path by {
            let si = if i < p { i } else { i + 1 };
            if si < p {
                assert(s[si].path != s[p].path);
            } else {
                assert(s[p].path != s[si].path);
            }
        }
    }
}

/// The rank stored for `path`, or zero if none is.
pub open spec fn rank_of(s: Seq<EntryView>, path: Seq<char>) -> Rank {
    match lookup(s, path) {
        Some(e) => e.rank,
        None => 0,
    }
}

/// What a visit does to each path: the visited path holds its earlier rank
/// plus the weight, and the time of the visit; every other path holds what
/// it held before.
pub proof fn lemma_upserted_lookup(
    s: Seq<EntryView>,
    path: Seq<char>,
    delta: Rank,
    timestamp: Epoch,
    other: Seq<char>,
)
    requires
        unique_paths(s),
    ensures
        lookup(upserted(s, path, delta, timestamp), other) == if other == path {
            Some(
                EntryView {
                    path,
                    rank: rank_sum(rank_of(s, path), delta),
                    last_accessed: timestamp,
                },
            )
        } else {
            lookup(s, other)
        },
{
    let t = upserted(s, path, delta, timestamp);
    lemma_upserted_unique(s, path, delta, timestamp);
    let at = if has_path(s, path) {
        position(s, path)
    } else {
        s.len() as int
    };
    assert(t[at].path == path);
    assert forall|k: int| 0 <= k < t.len() && k != at implies #[trigger] t[k] == s[k] && s[k].path
        != path by {
        if has_path(s, path) {
            if k < at {
                assert(s[k].path != s[at].path);
            } else {
                assert(s[at].path != s[k].path);
            }
        }
    }
    if other == path {
        lemma_position(t, at);
    } else if has_path(s, other) {
        let q = position(s, other);
        assert(t[q] == s[q]);
        lemma_position(t, q);
    } else {
        assert forall|k: int| 0 <= k < t.len() implies (#[trigger] t[k]).path != other by {
            if k != at {
                assert(t[k] == s[k]);
            }
        }
    }
}

/// What a removal does to each path: the removed path holds nothing, and
/// every other path holds what it held before.
pub proof fn lemma_without_lookup(s: Seq<EntryView>, path: Seq<char>, other: Seq<char>)
    requires
        unique_paths(s),
    ensures
        lookup(without(s, path), other) == if other == path {
            None
        } else {
            lookup(s, other)
        },
{
    let t = without(s, path);
    lemma_without_unique(s, path);
    if has_path(s, path) && other != path {
        let p = position(s, path);
        if has_path(s, other) {
            let q = position(s, other);
            let moved = if q < p {
                q
            } else {
                q - 1
            };
            assert(t[moved] == s[q]);
            lemma_position(t, moved);
        } else {
            assert forall|k: int| 0 <= k < t.len() implies (#[trigger] t[k]).path != other by {
                let from = if k < p {
                    k
                } else {
                    k + 1
                };
                assert(t[k] == s[from]);
            }
        }
    }
}

/// Rank monotonicity: after two visits to one path, the path holds its
/// earlier rank plus both weights, and the time of the second visit.
pub proof fn lemma_repeated_visits(
    s: Seq<EntryView>,
    path: Seq<char>,
    first: Rank,
    first_time: Epoch,
    second: Rank,
    second_time: Epoch,
)
    requires
        unique_paths(s),
        rank_of(s, path) + first + second <= u64::MAX,
    ensures
        lookup(
            upserted(upserted(s, path, first, first_time), path, second, second_time),
            path,
        ) == Some(
            EntryView {
                path,
                rank: (rank_of(s, path) + first + second) as u64,
                last_accessed: second_time,
            },
        ),
{
    let once = upserted(s, path, first, first_time);
    lemma_upserted_lookup(s, path, first, first_time, path);
    lemma_upserted_unique(s, path, first, first_time);
    lemma_upserted_lookup(once, path, second, second_time, path);
}

/// The sum of all ranks after one entry has been replaced.
pub proof fn lemma_total_rank_update(s: Seq<EntryView>, i: int, e: EntryView)
    requires
        0 <= i < s.len(),
    ensures
        total_rank(s.update(i, e)) + s[i].rank == total_rank(s) + e.rank,
    decreases s.len(),
{
    if i == s.len() - 1 {
        assert(s.update(i, e).drop_last() =~= s.drop_last());
    } else {
        assert(s.update(i, e).drop_last() =~= s.drop_last().update(i, e));
        lemma_total_rank_update(s.drop_last(), i, e);
    }
}

/// A visit raises the sum of all ranks by its weight, or by less where the
/// rank of the path is held at the largest rank.
pub proof fn lemma_upserted_total(s: Seq<EntryView>, path: Seq<char>, delta: Rank, timestamp: Epoch)
    ensures
        total_rank(upserted(s, path, delta, timestamp)) + rank_of(s, path) == total_rank(s)
            + rank_sum(rank_of(s, path), delta),
        total_rank(upserted(s, path, delta, timestamp)) <= total_rank(s) + delta,
{
    if has_path(s, path) {
        let i = position(s, path);
        lemma_total_rank_update(
            s,
            i,
            EntryView { path, rank: rank_sum(s[i].rank, delta), last_accessed: timestamp },
        );
    } else {
        lemma_total_rank_push(s, EntryView { path, rank: delta, last_accessed: timestamp });
    }
}

/// Rank monotonicity of `add`: where the ranks with both weights stay under
/// the ceiling of the aging engine, two visits to one path leave it with
/// its earlier rank plus both weights, and the time of the second visit.
pub proof fn lemma_repeated_adds(
    s: Seq<EntryView>,
    path: Seq<char>,
    first: Rank,
    first_time: Epoch,
    second: Rank,
    second_time: Epoch,
)
    requires
        unique_paths(s),
        total_rank(s) + first + second <= AGE_THRESHOLD,
    ensures
        added(added(s, path, first, first_time), path, second, second_time) == upserted(
            upserted(s, path, first, first_time),
            path,
            second,
            second_time,
        ),
        lookup(added(added(s, path, first, first_time), path, second, second_time), path) == Some(
            EntryView {
                path,
                rank: (rank_of(s, path) + first + second) as u64,
                last_accessed: second_time,
            },
        ),
{
    let once = upserted(s, path, first, first_time);
    lemma_upserted_total(s, path, first, first_time);
    lemma_upserted_total(once, path, second, second_time);
    lemma_rank_of_bound(s, path);
    lemma_repeated_visits(s, path, first, first_time, second, second_time);
}

/// No rank exceeds the sum of all ranks.
pub proof fn lemma_rank_of_bound(s: Seq<EntryView>, path: Seq<char>)
    ensures
        rank_of(s, path) <= total_rank(s),
    decreases s.len(),
{
    if has_path(s, path) {
        let i = position(s, path);
        lemma_total_rank_update(s, i, EntryView { path, rank: 0, last_accessed: 0 });
    }
}

/// A collection of directory entries in which no path occurs twice.
#[derive(Debug)]
pub struct Store {
    entries: Vec<DirEntry>,
}

impl View for Store {
    type V = Seq<EntryView>;

    closed spec fn view(&self) -> Seq<EntryView> {
        views(self.entries@)
    }
}

impl Store {
    #[verifier::type_invariant]
    spec fn paths_are_unique(self) -> bool {
        unique_paths(self@)
    }

    /// The empty store.
    pub fn new() -> (store: Self)
        ensures
            store@ == Seq::<EntryView>::empty(),
    {
        let store = Store { entries: Vec::new() };
        assert(store@ =~= Seq::<EntryView>::empty());
        store
    }

    /// The number of entries.
    pub fn len(&self) -> (n: usize)
        ensures
            n == self@.len(),
    {
        self.entries.len()
    }

    /// The entries, in the order in which their paths were first stored.
    pub fn entries(&self) -> (all: &Vec<DirEntry>)
        ensures
            views(all@) == self@,
            unique_paths(self@),
    {
        proof {
            use_type_invariant(self);
        }
        &self.entries
    }

    fn find(&self, path: &str) -> (found: Option<usize>)
        ensures
            unique_paths(self@),
            match found {
                Some(i) => i < self@.len() && self@[i as int].path == path@ && has_path(
                    self@,
                    path@,
                ) && position(self@, path@) == i,
                None => !has_path(self@, path@),
            },
    {
        proof {
            use_type_invariant(self);
        }
        let mut i: usize = 0;
        while i < self.entries.len()
            invariant
                i <= self.entries@.len(),
                unique_paths(self@),
                forall|k: int| 0 <= k < i ==> (#[trigger] self@[k]).path != path@,
            decreases self.entries@.len() - i,
        {
            if same_text(self.entries[i].path.as_str(), path) {
                proof {
                    lemma_position(self@, i as int);
                }
                return Some(i);
            }
            i += 1;
        }
        None
    }

    /// Records a visit of weight `rank_delta` to `path` at `timestamp`: a
    /// new path is stored with that rank, a stored one gains it and takes
    /// the new timestamp.
    pub fn upsert(&mut self, path: &str, rank_delta: Rank, timestamp: Epoch)
        ensures
            final(self)@ == upserted(old(self)@, path@, rank_delta, timestamp),
    {
        let found = self.find(path);
        let ghost before = self@;
        let mut entries: Vec<DirEntry> = Vec::new();
        std::mem::swap(&mut entries, &mut self.entries);
        match found {
            Some(i) => {
                let rank = entries[i].rank.saturating_add(rank_delta);
                entries.set(i, DirEntry::new(path, rank, timestamp));
            },
            None => {
                entries.push(DirEntry::new(path, rank_delta, timestamp));
            },
        }
        proof {
            lemma_upserted_unique(before, path@, rank_delta, timestamp);
            assert(views(entries@) =~= upserted(
                before,
                path@,
                rank_delta,
                timestamp,
            ));
        }
        self.entries = entries;
    }

    /// Removes the entry for `path`. Fails with `InvalidInput`, and changes
    /// nothing, if no such entry is stored.
    pub fn remove(&mut self, path: &str) -> (done: Result<(), ErrorKind>)
        ensures
            final(self)@ == without(old(self)@, path@),
            done is Ok <==> has_path(old(self)@, path@),
            done is Err ==> done == Err::<(), ErrorKind>(ErrorKind::InvalidInput),
    {
        let found = self.find(path);
        let ghost before = self@;
        match found {
            Some(i) => {
                let mut entries: Vec<DirEntry> = Vec::new();
                std::mem::swap(&mut entries, &mut self.entries);
                let _ = entries.remove(i);
                proof {
                    lemma_without_unique(before, path@);
                    assert(views(entries@) =~= without(before, path@));
                }
                self.entries = entries;
                Ok(())
            },
            None => Err(ErrorKind::InvalidInput),
        }
    }

    /// The sum of all ranks.
    pub fn total_rank(&self) -> (total: u128)
        ensures
            total == total_rank(self@),
    {
        let mut total: u128 = 0;
        let mut i: usize = 0;
        while i < self.entries.len()
            invariant
                i <= self.entries@.len(),
                total == total_rank(self@.take(i as int)),
                total <= i * u64::MAX,
            decreases self.entries@.len() - i,
        {
            proof {
                assert(self@.take(i + 1).drop_last() =~= self@.take(i as int));
                assert(i * u64::MAX + u64::MAX <= usize::MAX * u64::MAX + u64::MAX) by (nonlinear_arith)
                    requires
                        i <= usize::MAX,
                ;
            }
            total = total + self.entries[i].rank as u128;
            i += 1;
        }
        assert(self@.take(i as int) =~= self@);
        total
    }

    /// Runs the aging engine: if the ranks add up to more than
    /// `AGE_THRESHOLD`, every rank decays by the factor 3/4 and the entries
    /// that fall under `AGE_MIN` are dropped; otherwise nothing changes.
    pub fn age(&mut self)
        ensures
            final(self)@ == aged(old(self)@),
            AGE_SCALE_NUM * total_rank(old(self)@) <= AGE_SCALE_DEN * AGE_THRESHOLD ==> total_rank(
                final(self)@,
            ) <= AGE_THRESHOLD,
    {
        proof {
            if AGE_SCALE_NUM * total_rank(self@) <= AGE_SCALE_DEN * AGE_THRESHOLD {
                lemma_aging_bound(self@);
            }
        }
        if self.total_rank() <= AGE_THRESHOLD as u128 {
            return ;
        }
        proof {
            use_type_invariant(&*self);
        }
        let ghost before = self@;
        let mut entries: Vec<DirEntry> = Vec::new();
        std::mem::swap(&mut entries, &mut self.entries);
        let mut kept: Vec<DirEntry> = Vec::new();
        let mut i: usize = 0;
        assert(before.take(0) =~= Seq::<EntryView>::empty());
        proof {
            lemma_decayed_sources(before.take(0));
        }
        while i < entries.len()
            invariant
                i <= entries@.len(),
                views(entries@) == before,
                views(kept@) == decayed(before.take(i as int)),
            decreases entries@.len() - i,
        {
            let rank = decay(entries[i].rank);
            proof {
                assert(before.take(i + 1) =~= before.take(i as int).push(before[i as int]));
                lemma_decayed_push(before.take(i as int), before[i as int]);
            }
            if rank >= AGE_MIN {
                let ghost shorter = views(kept@);
                kept.push(DirEntry::new(entries[i].path.as_str(), rank, entries[i].last_accessed));
                assert(views(kept@) =~= shorter.push(
                    decayed_entry(before[i as int]),
                ));
            }
            i += 1;
        }
        proof {
            assert(before.take(i as int) =~= before);
            lemma_decayed_unique(before);
        }
        self.entries = kept;
    }

    /// Records a visit of the default weight, one rank unit, to `path` at
    /// `now`, then runs the aging engine.
    pub fn add(&mut self, path: &str, now: Epoch)
        ensures
            final(self)@ == added(old(self)@, path@, RANK_ONE, now),
            total_rank(old(self)@) <= AGE_THRESHOLD ==> total_rank(final(self)@) <= AGE_THRESHOLD,
    {
        self.add_weighted(path, RANK_ONE, now);
    }

    /// Records a visit of weight `weight` to `path` at `now`, then runs the
    /// aging engine.
    pub fn add_weighted(&mut self, path: &str, weight: Rank, now: Epoch)
        ensures
            final(self)@ == added(old(self)@, path@, weight, now),
            total_rank(old(self)@) <= AGE_THRESHOLD && AGE_SCALE_NUM * weight <= AGE_THRESHOLD
                ==> total_rank(final(self)@) <= AGE_THRESHOLD,
    {
        proof {
            if total_rank(self@) <= AGE_THRESHOLD && AGE_SCALE_NUM * weight <= AGE_THRESHOLD {
                lemma_add_keeps_ceiling(self@, path@, weight, now);
            }
        }
        self.upsert(path, weight, now);
        self.age();
    }

    /// Adds the records in turn, each with its rank as the weight and its
    /// time of last access as the time of the visit. Fails with
    /// `InvalidInput`, and changes nothing, if a record names no path.
    pub fn import(&mut self, records: &Vec<DirEntry>) -> (done: Result<(), ErrorKind>)
        ensures
            match done {
                Ok(()) => {
                    &&& forall|k: int|
                        0 <= k < records@.len() ==> well_formed_record(#[trigger] views(records@)[k])
                    &&& final(self)@ == imported(old(self)@, views(records@))
                },
                Err(e) => {
                    &&& e == ErrorKind::InvalidInput
                    &&& exists|k: int|
                        0 <= k < records@.len() && !well_formed_record(
                            #[trigger] views(records@)[k],
                        )
                    &&& final(self)@ == old(self)@
                },
            },
    {
        let mut k: usize = 0;
        while k < records.len()
            invariant
                k <= records@.len(),
                forall|j: int| 0 <= j < k ==> well_formed_record(#[trigger] views(records@)[j]),
            decreases records@.len() - k,
        {
            if records[k].path.as_str().is_empty() {
                assert(!well_formed_record(views(records@)[k as int]));
                return Err(ErrorKind::InvalidInput);
            }
            k += 1;
        }
        let ghost before = self@;
        let mut i: usize = 0;
        assert(views(records@).take(0) =~= Seq::<EntryView>::empty());
        while i < records.len()
            invariant
                i <= records@.len(),
                self@ == imported(before, views(records@).take(i as int)),
            decreases records@.len() - i,
        {
            proof {
                let upto = views(records@).take(i + 1);
                assert(upto.drop_last() =~= views(records@).take(i as int));
                assert(upto.last() == records@[i as int]@);
            }
            self.add_weighted(records[i].path.as_str(), records[i].rank, records[i].last_accessed);
            i += 1;
        }
        assert(views(records@).take(i as int) =~= views(records@));
        Ok(())
    }

    /// The store that holds exactly `entries`. Fails with `InvalidInput` if
    /// two of them share a path.
    pub fn from_entries(entries: Vec<DirEntry>) -> (made: Result<Store, ErrorKind>)
        ensures
            match made {
                Ok(store) => store@ == views(entries@) && unique_paths(views(entries@)),
                Err(e) => e == ErrorKind::InvalidInput && !unique_paths(views(entries@)),
            },
    {
        let mut j: usize = 0;
        while j < entries.len()
            invariant
                j <= entries@.len(),
                forall|a: int, b: int|
                    0 <= a < b < j ==> (#[trigger] views(entries@)[a]).path != (#[trigger] views(
                        entries@,
                    )[b]).path,
            decreases entries@.len() - j,
        {
            let mut i: usize = 0;
            while i < j
                invariant
                    i <= j < entries@.len(),
                    forall|a: int|
                        0 <= a < i ==> (#[trigger] views(entries@)[a]).path != views(
                            entries@,
                        )[j as int].path,
                decreases j - i,
            {
                if same_text(entries[i].path.as_str(), entries[j].path.as_str()) {
                    assert(views(entries@)[i as int].path == views(entries@)[j as int].path);
                    return Err(ErrorKind::InvalidInput);
                }
                i += 1;
            }
            j += 1;
        }
        Ok(Store { entries })
    }

    /// Whether the store holds no entry.
    pub fn is_empty(&self) -> (empty: bool)
        ensures
            empty == (self@.len() == 0),
    {
        self.entries.len() == 0
    }

    /// Whether an entry for `path` is stored.
    pub fn contains(&self, path: &str) -> (found: bool)
        ensures
            found == has_path(self@, path@),
    {
        self.find(path).is_some()
    }

    /// A copy of the entry stored for `path`.
    pub fn get(&self, path: &str) -> (entry: Option<DirEntry>)
        ensures
            match entry {
                Some(e) => lookup(self@, path@) == Some(e@),
                None => lookup(self@, path@) is None,
            },
    {
        match self.find(path) {
            Some(i) => Some(self.entries[i].clone()),
            None => None,
        }
    }
}

} // verus!
