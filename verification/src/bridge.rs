//! The bridge to an interactive selector: the candidates go out as lines of
//! text, and the one line that comes back names the choice.
//!
//! A line holds the score in a column of fixed width, a space, the path and
//! a line feed. The column is cut off again before the line that comes back
//! is compared with the candidates.

use vstd::prelude::*;
use vstd::slice::*;
use vstd::string::*;
use crate::entry::SCORE_ONE;
use crate::error::ErrorKind;
use crate::ranking::Match;
use crate::text::{bytes_eq, utf8};

verus! {

/// The line feed that ends a line.
pub const NEWLINE: u8 = 0x0a;

/// The space that pads the score column and parts it from the path.
pub const SPACE: u8 = 0x20;

/// The width of the score column.
pub const SCORE_WIDTH: usize = 4;

/// The largest score that the column shows; higher scores show as this.
pub const SCORE_CEILING: u128 = 9_999;

/// The length of what precedes the path in a line: the column and a space.
pub const PREFIX_LEN: usize = 5;

/// The exit status with which a selector reports that a choice was made.
pub const SELECTED: i32 = 0;

/// The score as the column shows it: in whole score units, rounded down,
/// and no higher than `SCORE_CEILING`.
pub open spec fn shown_score(score: u128) -> int {
    if score / SCORE_ONE > SCORE_CEILING {
        SCORE_CEILING as int
    } else {
        (score / SCORE_ONE) as int
    }
}

/// The ASCII digit for `d`.
pub open spec fn digit(d: int) -> u8 {
    (0x30 + d) as u8
}

/// A number up to 9999 in decimal, right-aligned in four bytes and padded
/// with spaces.
pub open spec fn score_column(n: int) -> Seq<u8> {
    seq![
        if n >= 1000 {
            digit(n / 1000)
        } else {
            SPACE
        },
        if n >= 100 {
            digit(n / 100 % 10)
        } else {
            SPACE
        },
        if n >= 10 {
            digit(n / 10 % 10)
        } else {
            SPACE
        },
        digit(n % 10),
    ]
}

/// The line for one candidate.
pub open spec fn candidate_line(path: Seq<char>, score: u128) -> Seq<u8> {
    score_column(shown_score(score)) + seq![SPACE] + utf8(path) + seq![NEWLINE]
}

/// The lines for the candidates, in their order.
pub open spec fn candidate_lines(found: Seq<Match>) -> Seq<u8>
    decreases found.len(),
{
    if found.len() == 0 {
        Seq::empty()
    } else {
        candidate_lines(found.drop_last()) + candidate_line(found.last().path@, found.last().score)
    }
}

/// The length of the first line of `output`, without its line feed.
pub open spec fn line_end(output: Seq<u8>) -> int
    decreases output.len(),
{
    if output.len() == 0 || output.first() == NEWLINE {
        0
    } else {
        1 + line_end(output.drop_first())
    }
}

/// The first line of `output`, without its line feed.
pub open spec fn first_line(output: Seq<u8>) -> Seq<u8> {
    output.take(line_end(output))
}

/// The path that a line names: what follows the score column and the
/// space, or `None` if the line is shorter than those.
pub open spec fn named_path(line: Seq<u8>) -> Option<Seq<u8>> {
    if line.len() < PREFIX_LEN {
        None
    } else {
        Some(line.skip(PREFIX_LEN as int))
    }
}

/// The candidate at index `k` is the first one with the path `path`.
pub open spec fn first_with_path(found: Seq<Match>, path: Seq<u8>, k: int) -> bool {
    &&& 0 <= k < found.len()
    &&& utf8(found[k].path@) == path
    &&& forall|j: int| 0 <= j < k ==> utf8((#[trigger] found[j]).path@) != path
}

/// No candidate has the path `path`.
pub open spec fn none_with_path(found: Seq<Match>, path: Seq<u8>) -> bool {
    forall|j: int| 0 <= j < found.len() ==> utf8((#[trigger] found[j]).path@) != path
}

/// The first line of an output goes up to its first line feed.
pub proof fn lemma_line_end(output: Seq<u8>)
    ensures
        0 <= line_end(output) <= output.len(),
        line_end(output) < output.len() ==> output[line_end(output)] == NEWLINE,
        forall|k: int| 0 <= k < line_end(output) ==> output[k] != NEWLINE,
    decreases output.len(),
{
    if output.len() == 0 || output.first() == NEWLINE {
    } else {
        let rest = output.drop_first();
        lemma_line_end(rest);
        assert forall|k: int| 0 <= k < line_end(output) implies output[k] != NEWLINE by {
            if k > 0 {
                assert(output[k] == rest[k - 1]);
            }
        }
    }
}

/// A prefix without a line feed, followed by a line feed, is the first line.
pub proof fn lemma_first_line_of(line: Seq<u8>, rest: Seq<u8>)
    requires
        forall|k: int| 0 <= k < line.len() ==> line[k] != NEWLINE,
    ensures
        line_end(line + seq![NEWLINE] + rest) == line.len(),
        first_line(line + seq![NEWLINE] + rest) == line,
    decreases line.len(),
{
    let output = line + seq![NEWLINE] + rest;
    if line.len() == 0 {
        assert(output.first() == NEWLINE);
        assert(output.take(0) =~= line);
    } else {
        assert(output.len() > 0 && output.first() != NEWLINE) by {
            assert(output[0] == line[0]);
        }
        assert(output.first() == line[0]);
        assert(output.drop_first() =~= line.drop_first() + seq![NEWLINE] + rest);
        assert forall|k: int| 0 <= k < line.drop_first().len() implies line.drop_first()[k]
            != NEWLINE by {
            assert(line.drop_first()[k] == line[k + 1]);
        }
        lemma_first_line_of(line.drop_first(), rest);
        assert(line.drop_first().len() == line.len() - 1);
        assert(output.take(line.len() as int) =~= line);
    }
}

/// What comes back is read as what went out: the line of a candidate whose
/// path holds no line feed, whatever follows it, names that candidate's
/// path.
pub proof fn lemma_line_names_its_path(path: Seq<char>, score: u128, rest: Seq<u8>)
    requires
        forall|k: int| 0 <= k < utf8(path).len() ==> utf8(path)[k] != NEWLINE,
    ensures
        named_path(first_line(candidate_line(path, score) + rest)) == Some(utf8(path)),
{
    let n = shown_score(score);
    let line = score_column(n) + seq![SPACE] + utf8(path);
    assert(0 <= n <= 9_999);
    assert forall|k: int| 0 <= k < line.len() implies line[k] != NEWLINE by {
        if k >= PREFIX_LEN {
            assert(line[k] == utf8(path)[k - PREFIX_LEN]);
        }
    }
    assert(candidate_line(path, score) + rest =~= line + seq![NEWLINE] + rest);
    lemma_first_line_of(line, rest);
    assert(line.skip(PREFIX_LEN as int) =~= utf8(path));
}

/// Writes the score column.
fn write_column(out: &mut Vec<u8>, score: u128)
    ensures
        final(out)@ == old(out)@ + score_column(shown_score(score)),
{
    let whole = score / SCORE_ONE;
    let n: u32 = if whole > SCORE_CEILING {
        9_999
    } else {
        whole as u32
    };
    let ghost before = out@;
    out.push(
        if n >= 1000 {
            0x30 + (n / 1000) as u8
        } else {
            SPACE
        },
    );
    out.push(
        if n >= 100 {
            0x30 + (n / 100 % 10) as u8
        } else {
            SPACE
        },
    );
    out.push(
        if n >= 10 {
            0x30 + (n / 10 % 10) as u8
        } else {
            SPACE
        },
    );
    out.push(0x30 + (n % 10) as u8);
    assert(out@ =~= before + score_column(shown_score(score)));
}

/// The lines that are written to the selector: one for each candidate, in
/// their order.
pub fn render(found: &Vec<Match>) -> (out: Vec<u8>)
    ensures
        out@ == candidate_lines(found@),
{
    let mut out: Vec<u8> = Vec::new();
    let mut i: usize = 0;
    assert(found@.take(0) =~= Seq::<Match>::empty());
    while i < found.len()
        invariant
            i <= found@.len(),
            out@ == candidate_lines(found@.take(i as int)),
        decreases found@.len() - i,
    {
        let ghost before = out@;
        write_column(&mut out, found[i].score);
        out.push(SPACE);
        let mut path = slice_to_vec(found[i].path.as_str().as_bytes());
        out.append(&mut path);
        out.push(NEWLINE);
        proof {
            assert(found@.take(i + 1).drop_last() =~= found@.take(i as int));
            assert(found@.take(i + 1).last() == found@[i as int]);
            assert(out@ =~= before + candidate_line(found@[i as int].path@, found@[i as int].score));
        }
        i += 1;
    }
    assert(found@.take(i as int) =~= found@);
    out
}

/// Finds the end of the first line.
fn find_line_end(output: &[u8]) -> (end: usize)
    ensures
        end == line_end(output@),
        end <= output@.len(),
{
    let mut end: usize = 0;
    assert(output@.skip(0) =~= output@);
    while end < output.len() && output[end] != NEWLINE
        invariant
            end <= output@.len(),
            line_end(output@) == end + line_end(output@.skip(end as int)),
        decreases output@.len() - end,
    {
        assert(output@.skip(end as int).drop_first() =~= output@.skip(end + 1));
        end += 1;
    }
    proof {
        if end < output@.len() {
            assert(output@.skip(end as int).first() == NEWLINE);
        }
    }
    end
}

/// Reads what the selector gave back: its exit status and its output.
///
/// Any status but `SELECTED`, or no status at all, means that the selection
/// was aborted: `Cancelled`. Otherwise the first line of the output names a
/// path, and the result is the index of the first candidate with that path.
/// A line too short to name one, or a path that no candidate has, is
/// `NoMatch`.
pub fn interpret(status: Option<i32>, output: &[u8], found: &Vec<Match>) -> (choice: Result<
    usize,
    ErrorKind,
>)
    ensures
        match choice {
            Ok(k) => {
                &&& status == Some(SELECTED)
                &&& named_path(first_line(output@)) matches Some(path)
                &&& first_with_path(found@, path, k as int)
            },
            Err(e) => if status != Some(SELECTED) {
                e == ErrorKind::Cancelled
            } else {
                &&& e == ErrorKind::NoMatch
                &&& named_path(first_line(output@)) matches Some(path) ==> none_with_path(
                    found@,
                    path,
                )
            },
        },
{
    match status {
        Some(code) => {
            if code != SELECTED {
                return Err(ErrorKind::Cancelled);
            }
        },
        None => {
            return Err(ErrorKind::Cancelled);
        },
    }
    let end = find_line_end(output);
    if end < PREFIX_LEN {
        return Err(ErrorKind::NoMatch);
    }
    let named = slice_subrange(output, PREFIX_LEN, end);
    assert(named@ =~= first_line(output@).skip(PREFIX_LEN as int));
    let mut k: usize = 0;
    while k < found.len()
        invariant
            k <= found@.len(),
            status == Some(SELECTED),
            named_path(first_line(output@)) == Some(named@),
            forall|j: int| 0 <= j < k ==> utf8((#[trigger] found@[j]).path@) != named@,
        decreases found@.len() - k,
    {
        if bytes_eq(found[k].path.as_str().as_bytes(), named) {
            return Ok(k);
        }
        k += 1;
    }
    Err(ErrorKind::NoMatch)
}

} // verus!
