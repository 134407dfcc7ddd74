//! The persisted form of a store: a format version, the number of entries,
//! and the entries one after the other. Every integer is little-endian; a
//! rank is written as its number of rank units.
//!
//! ```text
//! version: u32 | count: u64 | count times:
//!     path length: u64 | path: UTF-8 bytes | rank: u64 | last accessed: u64
//! ```

use vstd::prelude::*;
use vstd::bytes::*;
use vstd::slice::*;
use vstd::string::*;
use vstd::utf8::*;
use crate::aging::{lemma_aged_unique, lemma_aging_never_raises};
use crate::entry::{views, DirEntry, EntryView, Epoch, Rank};
use crate::error::ErrorKind;
use crate::store::{added, lemma_upserted_unique, unique_paths, upserted, Store};
use crate::text::{string_from_utf8, utf8};

verus! {

/// The version of the format that is written, and the only one that is read.
pub const FORMAT_VERSION: u32 = 3;

/// The length of what precedes the entries: the version and the count.
pub const HEADER_LEN: usize = 12;

/// The length of what an entry holds besides its path.
pub const ENTRY_FIXED_LEN: usize = 24;

/// The bytes of one entry.
pub open spec fn entry_bytes(e: EntryView) -> Seq<u8> {
    spec_u64_to_le_bytes(utf8(e.path).len() as u64) + utf8(e.path) + spec_u64_to_le_bytes(e.rank)
        + spec_u64_to_le_bytes(e.last_accessed)
}

/// The bytes of the entries, one after the other.
pub open spec fn body_bytes(es: Seq<EntryView>) -> Seq<u8>
    decreases es.len(),
{
    if es.len() == 0 {
        Seq::empty()
    } else {
        entry_bytes(es.first()) + body_bytes(es.drop_first())
    }
}

/// The persisted form of a store.
pub open spec fn store_bytes(es: Seq<EntryView>) -> Seq<u8> {
    spec_u32_to_le_bytes(FORMAT_VERSION) + spec_u64_to_le_bytes(es.len() as u64) + body_bytes(es)
}

/// The count and every path length fit the 64 bits that the format gives
/// them. This holds of every store in memory.
pub open spec fn encodable(es: Seq<EntryView>) -> bool {
    &&& es.len() <= u64::MAX
    &&& forall|i: int| 0 <= i < es.len() ==> utf8((#[trigger] es[i]).path).len() <= u64::MAX
}

/// Reads one entry from the front of `b`: the entry and the number of
/// bytes it takes, or `None` if `b` is too short or the path is not UTF-8.
pub open spec fn parsed_entry(b: Seq<u8>) -> Option<(EntryView, int)> {
    if b.len() < 8 {
        None
    } else {
        let n = spec_u64_from_le_bytes(b.subrange(0, 8)) as int;
        if b.len() < n + ENTRY_FIXED_LEN {
            None
        } else if !valid_utf8(b.subrange(8, 8 + n)) {
            None
        } else {
            Some(
                (
                    EntryView {
                        path: decode_utf8(b.subrange(8, 8 + n)),
                        rank: spec_u64_from_le_bytes(b.subrange(8 + n, 16 + n)),
                        last_accessed: spec_u64_from_le_bytes(b.subrange(16 + n, 24 + n)),
                    },
                    n + ENTRY_FIXED_LEN,
                ),
            )
        }
    }
}

/// Reads `count` entries that together take all of `b`.
pub open spec fn parsed_entries(b: Seq<u8>, count: nat) -> Option<Seq<EntryView>>
    decreases count,
{
    if count == 0 {
        if b.len() == 0 {
            Some(Seq::empty())
        } else {
            None
        }
    } else {
        match parsed_entry(b) {
            None => None,
            Some((e, used)) => match parsed_entries(b.skip(used), (count - 1) as nat) {
                None => None,
                Some(rest) => Some(seq![e] + rest),
            },
        }
    }
}

/// Reads a persisted store: `None` if the bytes are too short for the
/// header, the version is not `FORMAT_VERSION`, the entries cannot be read
/// or do not take all of the bytes, or two entries share a path.
pub open spec fn parsed_store(b: Seq<u8>) -> Option<Seq<EntryView>> {
    if b.len() < HEADER_LEN {
        None
    } else if spec_u32_from_le_bytes(b.subrange(0, 4)) != FORMAT_VERSION {
        None
    } else {
        match parsed_entries(
            b.skip(HEADER_LEN as int),
            spec_u64_from_le_bytes(b.subrange(4, 12)) as nat,
        ) {
            None => None,
            Some(es) => if unique_paths(es) {
                Some(es)
            } else {
                None
            },
        }
    }
}

/// Joins what was read so far with what the rest of the bytes reads as.
pub open spec fn resumed(read: Seq<EntryView>, rest: Option<Seq<EntryView>>) -> Option<
    Seq<EntryView>,
> {
    match rest {
        None => None,
        Some(more) => Some(read + more),
    }
}

proof fn lemma_le64(x: u64)
    ensures
        spec_u64_to_le_bytes(x).len() == 8,
        spec_u64_from_le_bytes(spec_u64_to_le_bytes(x)) == x,
{
    lemma_auto_spec_u64_to_from_le_bytes();
}

proof fn lemma_le64_back(s: Seq<u8>)
    requires
        s.len() == 8,
    ensures
        spec_u64_to_le_bytes(spec_u64_from_le_bytes(s)) == s,
{
    lemma_auto_spec_u64_to_from_le_bytes();
}

proof fn lemma_le32(x: u32)
    ensures
        spec_u32_to_le_bytes(x).len() == 4,
        spec_u32_from_le_bytes(spec_u32_to_le_bytes(x)) == x,
{
    lemma_auto_spec_u32_to_from_le_bytes();
    assert(spec_u32_to_le_bytes(x).len() == 4);
}

proof fn lemma_le32_back(s: Seq<u8>)
    requires
        s.len() == 4,
    ensures
        spec_u32_to_le_bytes(spec_u32_from_le_bytes(s)) == s,
{
    lemma_auto_spec_u32_to_from_le_bytes();
}

/// An entry is read back from its bytes, whatever follows them.
pub proof fn lemma_entry_round_trip(e: EntryView, tail: Seq<u8>)
    requires
        utf8(e.path).len() <= u64::MAX,
    ensures
        parsed_entry(entry_bytes(e) + tail) == Some((e, entry_bytes(e).len() as int)),
{
    let p = utf8(e.path);
    let n = p.len() as int;
    let b = entry_bytes(e) + tail;
    lemma_le64(n as u64);
    lemma_le64(e.rank);
    lemma_le64(e.last_accessed);
    assert(b.subrange(0, 8) =~= spec_u64_to_le_bytes(n as u64));
    assert(b.subrange(8, 8 + n) =~= p);
    assert(b.subrange(8 + n, 16 + n) =~= spec_u64_to_le_bytes(e.rank));
    assert(b.subrange(16 + n, 24 + n) =~= spec_u64_to_le_bytes(e.last_accessed));
    encode_utf8_valid_utf8(e.path);
    encode_utf8_decode_utf8(e.path);
}

/// What is read as an entry is written as the bytes it was read from.
pub proof fn lemma_parsed_entry_sound(b: Seq<u8>)
    requires
        parsed_entry(b) is Some,
    ensures
        ({
            let (e, used) = parsed_entry(b)->0;
            &&& ENTRY_FIXED_LEN <= used <= b.len()
            &&& utf8(e.path).len() <= u64::MAX
            &&& entry_bytes(e) == b.take(used)
        }),
{
    let (e, used) = parsed_entry(b)->0;
    let n = spec_u64_from_le_bytes(b.subrange(0, 8)) as int;
    let p = b.subrange(8, 8 + n);
    decode_utf8_encode_utf8(p);
    lemma_le64_back(b.subrange(0, 8));
    lemma_le64_back(b.subrange(8 + n, 16 + n));
    lemma_le64_back(b.subrange(16 + n, 24 + n));
    assert(utf8(e.path) == p);
    assert(entry_bytes(e) =~= b.take(used));
}

/// The bytes of a store with one more entry at its end.
pub proof fn lemma_body_bytes_push(es: Seq<EntryView>, e: EntryView)
    ensures
        body_bytes(es.push(e)) == body_bytes(es) + entry_bytes(e),
    decreases es.len(),
{
    if es.len() == 0 {
        assert(es.push(e).drop_first() =~= es);
        assert(es.push(e).first() == e);
        assert(body_bytes(es) =~= Seq::<u8>::empty());
        assert(body_bytes(es.push(e)) =~= body_bytes(es) + entry_bytes(e));
    } else {
        assert(es.push(e).drop_first() =~= es.drop_first().push(e));
        lemma_body_bytes_push(es.drop_first(), e);
        assert(body_bytes(es.push(e)) =~= body_bytes(es) + entry_bytes(e));
    }
}

/// The entries are read back from their bytes.
pub proof fn lemma_entries_round_trip(es: Seq<EntryView>)
    requires
        forall|i: int| 0 <= i < es.len() ==> utf8((#[trigger] es[i]).path).len() <= u64::MAX,
    ensures
        parsed_entries(body_bytes(es), es.len()) == Some(es),
    decreases es.len(),
{
    if es.len() > 0 {
        let e = es.first();
        let rest = es.drop_first();
        lemma_entry_round_trip(e, body_bytes(rest));
        assert(body_bytes(es).skip(entry_bytes(e).len() as int) =~= body_bytes(rest));
        assert forall|i: int| 0 <= i < rest.len() implies utf8((#[trigger] rest[i]).path).len()
            <= u64::MAX by {
            assert(rest[i] == es[i + 1]);
        }
        lemma_entries_round_trip(rest);
        assert(seq![e] + rest =~= es);
    }
}

/// What is read as entries is written as the bytes they were read from.
pub proof fn lemma_parsed_entries_sound(b: Seq<u8>, count: nat)
    requires
        parsed_entries(b, count) is Some,
    ensures
        ({
            let es = parsed_entries(b, count)->0;
            &&& es.len() == count
            &&& body_bytes(es) == b
            &&& forall|i: int| 0 <= i < es.len() ==> utf8((#[trigger] es[i]).path).len() <= u64::MAX
        }),
    decreases count,
{
    let es = parsed_entries(b, count)->0;
    if count == 0 {
        assert(b =~= Seq::<u8>::empty());
    } else {
        let (e, used) = parsed_entry(b)->0;
        let rest = parsed_entries(b.skip(used), (count - 1) as nat)->0;
        lemma_parsed_entry_sound(b);
        lemma_parsed_entries_sound(b.skip(used), (count - 1) as nat);
        assert(es.drop_first() =~= rest);
        assert(es.first() == e);
        assert(b =~= b.take(used) + b.skip(used));
        assert forall|i: int| 0 <= i < es.len() implies utf8((#[trigger] es[i]).path).len()
            <= u64::MAX by {
            if i > 0 {
                assert(es[i] == rest[i - 1]);
            }
        }
    }
}

/// Round trip: a store is read back from its persisted form.
pub proof fn lemma_round_trip(es: Seq<EntryView>)
    requires
        unique_paths(es),
        encodable(es),
    ensures
        parsed_store(store_bytes(es)) == Some(es),
{
    let b = store_bytes(es);
    lemma_le32(FORMAT_VERSION);
    lemma_le64(es.len() as u64);
    assert(b.subrange(0, 4) =~= spec_u32_to_le_bytes(FORMAT_VERSION));
    assert(b.subrange(4, 12) =~= spec_u64_to_le_bytes(es.len() as u64));
    assert(b.skip(HEADER_LEN as int) =~= body_bytes(es));
    lemma_entries_round_trip(es);
}

/// Whatever is read as a store is the persisted form of that store: no two
/// byte strings are read as the same store.
pub proof fn lemma_parsed_store_sound(b: Seq<u8>)
    requires
        parsed_store(b) is Some,
    ensures
        unique_paths(parsed_store(b)->0),
        encodable(parsed_store(b)->0),
        store_bytes(parsed_store(b)->0) == b,
{
    let es = parsed_store(b)->0;
    let count = spec_u64_from_le_bytes(b.subrange(4, 12));
    lemma_parsed_entries_sound(b.skip(HEADER_LEN as int), count as nat);
    lemma_le32_back(b.subrange(0, 4));
    lemma_le64_back(b.subrange(4, 12));
    assert(b =~= b.subrange(0, 4) + b.subrange(4, 12) + b.skip(HEADER_LEN as int));
}

/// A store that can be persisted can still be after a visit to a path whose
/// length fits the format.
pub proof fn lemma_added_encodable(
    s: Seq<EntryView>,
    path: Seq<char>,
    weight: Rank,
    now: Epoch,
)
    requires
        encodable(s),
        s.len() < u64::MAX,
        utf8(path).len() <= u64::MAX,
    ensures
        encodable(added(s, path, weight, now)),
        added(s, path, weight, now).len() <= s.len() + 1,
{
    let visited = upserted(s, path, weight, now);
    let after = added(s, path, weight, now);
    assert forall|i: int| 0 <= i < visited.len() implies utf8((#[trigger] visited[i]).path).len()
        <= u64::MAX by {
        if i < s.len() && visited[i].path != path {
            assert(visited[i] == s[i]);
        }
    }
    lemma_aging_never_raises(visited);
    assert forall|k: int| 0 <= k < after.len() implies utf8((#[trigger] after[k]).path).len()
        <= u64::MAX by {
        let j = choose|j: int|
            0 <= j < visited.len() && (#[trigger] visited[j]).path == (#[trigger] after[k]).path
                && after[k].rank <= visited[j].rank && after[k].last_accessed
                == visited[j].last_accessed;
        assert(utf8(visited[j].path).len() <= u64::MAX);
    }
}

/// No lost update: when a writer persists a visit, and a second writer
/// reads that file, adds a visit of its own and persists the result, the
/// file reads as the store with both visits.
pub proof fn lemma_no_lost_update(
    s: Seq<EntryView>,
    first_path: Seq<char>,
    first_weight: Rank,
    first_time: Epoch,
    second_path: Seq<char>,
    second_weight: Rank,
    second_time: Epoch,
)
    requires
        unique_paths(s),
        encodable(s),
        s.len() + 2 <= u64::MAX,
        utf8(first_path).len() <= u64::MAX,
        utf8(second_path).len() <= u64::MAX,
    ensures
        ({
            let first = added(s, first_path, first_weight, first_time);
            let reread = parsed_store(store_bytes(first));
            &&& reread == Some(first)
            &&& parsed_store(
                store_bytes(added(reread->0, second_path, second_weight, second_time)),
            ) == Some(added(first, second_path, second_weight, second_time))
        }),
{
    let first = added(s, first_path, first_weight, first_time);
    lemma_added_encodable(s, first_path, first_weight, first_time);
    lemma_upserted_unique(s, first_path, first_weight, first_time);
    lemma_aged_unique(upserted(s, first_path, first_weight, first_time));
    lemma_round_trip(first);
    let both = added(first, second_path, second_weight, second_time);
    lemma_added_encodable(first, second_path, second_weight, second_time);
    lemma_upserted_unique(first, second_path, second_weight, second_time);
    lemma_aged_unique(upserted(first, second_path, second_weight, second_time));
    lemma_round_trip(both);
}

fn read_u64(bytes: &[u8], pos: usize) -> (x: u64)
    requires
        pos + 8 <= bytes@.len() <= usize::MAX,
    ensures
        x == spec_u64_from_le_bytes(bytes@.subrange(pos as int, pos + 8)),
{
    u64_from_le_bytes(slice_subrange(bytes, pos, pos + 8))
}

fn write_u64(out: &mut Vec<u8>, x: u64)
    ensures
        final(out)@ == old(out)@ + spec_u64_to_le_bytes(x),
{
    let mut field = u64_to_le_bytes(x);
    out.append(&mut field);
}

/// Reads the entry that starts at `pos`, and says where the next one starts.
fn decode_entry(bytes: &[u8], pos: usize) -> (read: Option<(DirEntry, usize)>)
    requires
        pos <= bytes@.len(),
    ensures
        match read {
            Some((e, next)) => pos < next <= bytes@.len() && parsed_entry(bytes@.skip(pos as int))
                == Some((e@, next - pos)),
            None => parsed_entry(bytes@.skip(pos as int)) is None,
        },
{
    let ghost b = bytes@.skip(pos as int);
    let left = bytes.len() - pos;
    if left < 8 {
        return None;
    }
    let n64 = read_u64(bytes, pos);
    assert(b.subrange(0, 8) =~= bytes@.subrange(pos as int, pos + 8));
    let room = left - 8;
    if n64 > room as u64 {
        return None;
    }
    let n = n64 as usize;
    if room - n < 16 {
        return None;
    }
    let start = pos + 8;
    let path_bytes = slice_to_vec(slice_subrange(bytes, start, start + n));
    assert(b.subrange(8, 8 + n) =~= path_bytes@);
    match string_from_utf8(path_bytes) {
        None => None,
        Some(path) => {
            let rank = read_u64(bytes, start + n);
            let last_accessed = read_u64(bytes, start + n + 8);
            proof {
                assert(b.subrange(8 + n, 16 + n) =~= bytes@.subrange(start + n, start + n + 8));
                assert(b.subrange(16 + n, 24 + n) =~= bytes@.subrange(
                    start + n + 8,
                    start + n + 16,
                ));
                encode_utf8_decode_utf8(path@);
            }
            Some((DirEntry { path, rank, last_accessed }, start + n + 16))
        },
    }
}

/// Reads a persisted store. Fails with `Corrupt` if the bytes are not the
/// persisted form of a store: in particular if they are shorter than the
/// header, or carry another version than `FORMAT_VERSION`.
pub fn decode(bytes: &[u8]) -> (read: Result<Store, ErrorKind>)
    ensures
        match read {
            Ok(store) => parsed_store(bytes@) == Some(store@),
            Err(e) => e == ErrorKind::Corrupt && parsed_store(bytes@) is None,
        },
        bytes@.len() < HEADER_LEN ==> read is Err,
{
    if bytes.len() < HEADER_LEN {
        return Err(ErrorKind::Corrupt);
    }
    let version = u32_from_le_bytes(slice_subrange(bytes, 0, 4));
    if version != FORMAT_VERSION {
        return Err(ErrorKind::Corrupt);
    }
    let count = read_u64(bytes, 4);
    let ghost body = bytes@.skip(HEADER_LEN as int);
    let mut entries: Vec<DirEntry> = Vec::new();
    let mut pos: usize = HEADER_LEN;
    let mut done: u64 = 0;
    assert(views(entries@) + parsed_entries(body, count as nat)->0 =~= parsed_entries(
        body,
        count as nat,
    )->0);
    while done < count
        invariant
            HEADER_LEN <= pos <= bytes@.len(),
            done <= count,
            body == bytes@.skip(HEADER_LEN as int),
            spec_u32_from_le_bytes(bytes@.subrange(0, 4)) == FORMAT_VERSION,
            count == spec_u64_from_le_bytes(bytes@.subrange(4, 12)),
            parsed_entries(body, count as nat) == resumed(
                views(entries@),
                parsed_entries(bytes@.skip(pos as int), (count - done) as nat),
            ),
        decreases count - done,
    {
        let ghost here = bytes@.skip(pos as int);
        match decode_entry(bytes, pos) {
            None => {
                assert(parsed_entries(here, (count - done) as nat) is None);
                return Err(ErrorKind::Corrupt);
            },
            Some((entry, next)) => {
                proof {
                    let used = next - pos;
                    assert(parsed_entries(here, (count - done) as nat) == resumed(
                        seq![entry@],
                        parsed_entries(here.skip(used), (count - done - 1) as nat),
                    ));
                    assert(here.skip(used) =~= bytes@.skip(next as int));
                    let after = parsed_entries(
                        bytes@.skip(next as int),
                        (count - done - 1) as nat,
                    );
                    if after is Some {
                        assert(views(entries@.push(entry)) + after->0 =~= views(entries@) + (
                        seq![entry@] + after->0));
                    }
                }
                entries.push(entry);
                pos = next;
                done += 1;
            },
        }
    }
    if pos != bytes.len() {
        return Err(ErrorKind::Corrupt);
    }
    proof {
        assert(bytes@.skip(pos as int) =~= Seq::<u8>::empty());
        assert(views(entries@) + Seq::<EntryView>::empty() =~= views(entries@));
    }
    match Store::from_entries(entries) {
        Ok(store) => Ok(store),
        Err(_) => Err(ErrorKind::Corrupt),
    }
}

/// Writes the persisted form of a store, which reads back as that store.
pub fn encode(store: &Store) -> (bytes: Vec<u8>)
    ensures
        bytes@ == store_bytes(store@),
        encodable(store@),
        parsed_store(bytes@) == Some(store@),
{
    let entries = store.entries();
    let ghost es = views(entries@);
    let mut out = u32_to_le_bytes(FORMAT_VERSION);
    write_u64(&mut out, entries.len() as u64);
    let ghost header = out@;
    let mut i: usize = 0;
    assert(es.take(0) =~= Seq::<EntryView>::empty());
    assert(out@ =~= header + body_bytes(es.take(0)));
    while i < entries.len()
        invariant
            i <= entries@.len(),
            es == views(entries@),
            out@ == header + body_bytes(es.take(i as int)),
            forall|k: int| 0 <= k < i ==> utf8((#[trigger] es[k]).path).len() <= u64::MAX,
        decreases entries@.len() - i,
    {
        let path = entries[i].path.as_str().as_bytes();
        let ghost before = out@;
        write_u64(&mut out, path.len() as u64);
        let mut copy = slice_to_vec(path);
        out.append(&mut copy);
        write_u64(&mut out, entries[i].rank);
        write_u64(&mut out, entries[i].last_accessed);
        proof {
            assert(es.take(i + 1) =~= es.take(i as int).push(es[i as int]));
            lemma_body_bytes_push(es.take(i as int), es[i as int]);
            assert(out@ =~= before + entry_bytes(es[i as int]));
        }
        i += 1;
    }
    proof {
        assert(es.take(i as int) =~= es);
        lemma_round_trip(es);
    }
    out
}

/// The store that a process starts from: the empty store where no file
/// exists yet, and what the file reads as where one does. A file that
/// cannot be read as a store fails with `Corrupt`.
pub fn load(contents: Option<&[u8]>) -> (loaded: Result<Store, ErrorKind>)
    ensures
        match contents {
            None => loaded matches Ok(store) && store@ == Seq::<EntryView>::empty(),
            Some(bytes) => match loaded {
                Ok(store) => parsed_store(bytes@) == Some(store@),
                Err(e) => e == ErrorKind::Corrupt && parsed_store(bytes@) is None,
            },
        },
{
    match contents {
        None => Ok(Store::new()),
        Some(bytes) => decode(bytes),
    }
}

} // verus!
