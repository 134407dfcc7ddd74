//! Directory entries and their frecency score.
//!
//! Ranks and scores are fixed-point numbers, so that every sum, decay and
//! comparison is exact: a rank counts thousandths of a visit, and a score
//! counts quarters of a rank unit, which makes each recency multiplier a
//! whole number.

use vstd::prelude::*;

verus! {

/// Seconds since the Unix epoch.
pub type Epoch = u64;

/// A visit weight in fixed point: `RANK_ONE` units make one visit.
pub type Rank = u64;

/// The fixed-point unit of `Rank`: a rank of `1.0`.
pub const RANK_ONE: u64 = 1_000;

/// The fixed-point unit of a score: a score of `1.0`. Scores are kept in
/// quarters of a rank unit so that every multiplier is a whole number.
pub const SCORE_ONE: u128 = 4_000;

pub const HOUR: u64 = 3_600;

pub const DAY: u64 = 86_400;

pub const WEEK: u64 = 604_800;

/// The recency multiplier, in quarters, for a visit `elapsed` seconds ago:
/// 4 within the hour, 2 within the day, 1/2 within the week, 1/4 after that.
pub open spec fn multiplier_quarters(elapsed: int) -> int {
    if elapsed < HOUR {
        16
    } else if elapsed < DAY {
        8
    } else if elapsed < WEEK {
        2
    } else {
        1
    }
}

/// The frecency of a directory of rank `rank`, last entered at
/// `last_accessed`, as seen at `now`: the rank times the recency multiplier,
/// in score units.
pub open spec fn frecency(rank: Rank, last_accessed: Epoch, now: Epoch) -> int {
    rank * multiplier_quarters(now - last_accessed)
}

/// Computes the frecency score of a rank.
pub fn score_of(rank: Rank, last_accessed: Epoch, now: Epoch) -> (score: u128)
    ensures
        score == frecency(rank, last_accessed, now),
{
    let wide: u128 = rank as u128;
    if now < last_accessed {
        wide * 16
    } else {
        let elapsed: u64 = now - last_accessed;
        if elapsed < HOUR {
            wide * 16
        } else if elapsed < DAY {
            wide * 8
        } else if elapsed < WEEK {
            wide * 2
        } else {
            wide
        }
    }
}

/// A visited directory.
#[derive(Debug, PartialEq, Eq)]
pub struct DirEntry {
    /// Absolute path of the directory; the key of the entry.
    pub path: String,
    /// Accumulated visit weight.
    pub rank: Rank,
    /// When the directory was last entered.
    pub last_accessed: Epoch,
}

/// A `DirEntry` as plain mathematical values.
pub struct EntryView {
    pub path: Seq<char>,
    pub rank: Rank,
    pub last_accessed: Epoch,
}

impl View for DirEntry {
    type V = EntryView;

    open spec fn view(&self) -> EntryView {
        EntryView { path: self.path@, rank: self.rank, last_accessed: self.last_accessed }
    }
}

/// The entries of a vector as plain mathematical values.
pub open spec fn views(entries: Seq<DirEntry>) -> Seq<EntryView> {
    entries.map_values(|e: DirEntry| e@)
}

impl Clone for DirEntry {
    fn clone(&self) -> (copy: Self)
        ensures
            copy@ == self@,
    {
        DirEntry {
            path: self.path.clone(),
            rank: self.rank,
            last_accessed: self.last_accessed,
        }
    }
}

impl DirEntry {
    /// An entry for `path` with the given rank and time of last access.
    pub fn new(path: &str, rank: Rank, last_accessed: Epoch) -> (entry: Self)
        ensures
            entry@ == (EntryView { path: path@, rank, last_accessed }),
    {
        DirEntry { path: path.to_owned(), rank, last_accessed }
    }

    /// The frecency score of the entry as seen at `now`.
    pub fn score(&self, now: Epoch) -> (score: u128)
        ensures
            score == frecency(self.rank, self.last_accessed, now),
    {
        score_of(self.rank, self.last_accessed, now)
    }
}

} // verus!
