//! The matching engine: which paths a list of keywords matches, and in
//! which order the matching entries are offered.

use vstd::prelude::*;
use vstd::slice::*;
use vstd::string::*;
use crate::text::{
    contains_upper, find_from, has_upper, lowered, occurs_at, to_lower, utf8,
};

verus! {

/// The byte that separates the components of a path.
pub const SEPARATOR: u8 = 0x2f;

/// Where the final component of a path starts: behind its last separator,
/// or at its first byte if it has none.
pub open spec fn basename_start(path: Seq<u8>) -> int
    decreases path.len(),
{
    if path.len() == 0 {
        0
    } else if path.last() == SEPARATOR {
        path.len() as int
    } else {
        basename_start(path.drop_last())
    }
}

/// The keywords stand in `hay` at the indices `at`, one behind the other
/// and without overlap.
#[verifier::opaque]
pub open spec fn placement(hay: Seq<u8>, keywords: Seq<Seq<u8>>, at: Seq<int>) -> bool {
    &&& at.len() == keywords.len()
    &&& forall|i: int|
        #![trigger at[i]]
        0 <= i < keywords.len() ==> occurs_at(hay, keywords[i], at[i])
    &&& forall|i: int|
        #![trigger at[i]]
        0 < i < keywords.len() ==> at[i - 1] + keywords[i - 1].len() <= at[i]
}

/// The keywords match `hay`: they stand in it in their order, the last of
/// them within the final component.
pub open spec fn keywords_match(hay: Seq<u8>, keywords: Seq<Seq<u8>>) -> bool {
    exists|at: Seq<int>|
        #[trigger] placement(hay, keywords, at) && (keywords.len() > 0 ==> at.last()
            >= basename_start(hay))
}

/// No way to place the keywords in `hay` ends before the index `from`.
#[verifier::opaque]
pub open spec fn ends_no_earlier(hay: Seq<u8>, keywords: Seq<Seq<u8>>, from: int) -> bool {
    forall|at: Seq<int>|
        #[trigger] placement(hay, keywords, at) && keywords.len() > 0 ==> at.last()
            + keywords.last().len() >= from
}

/// The texts of a vector of strings.
pub open spec fn texts(strings: Seq<String>) -> Seq<Seq<char>> {
    strings.map_values(|s: String| s@)
}

/// The contents of a vector of byte strings.
pub open spec fn byte_views(strings: Seq<Vec<u8>>) -> Seq<Seq<u8>> {
    strings.map_values(|s: Vec<u8>| s@)
}

/// Matching is case-sensitive if some keyword holds an upper-case ASCII
/// letter.
pub open spec fn case_sensitive(keywords: Seq<Seq<char>>) -> bool {
    exists|i: int| 0 <= i < keywords.len() && has_upper(utf8(#[trigger] keywords[i]))
}

/// The bytes of a path that the keywords are held against: the path as it
/// is where matching is case-sensitive, and in lower case where it is not.
pub open spec fn haystack(path: Seq<char>, sensitive: bool) -> Seq<u8> {
    if sensitive {
        utf8(path)
    } else {
        lowered(utf8(path))
    }
}

/// The bytes of the keywords.
pub open spec fn needles(keywords: Seq<Seq<char>>) -> Seq<Seq<u8>> {
    keywords.map_values(|k: Seq<char>| utf8(k))
}

/// The keywords match the path.
pub open spec fn path_matches(path: Seq<char>, keywords: Seq<Seq<char>>) -> bool {
    keywords_match(haystack(path, case_sensitive(keywords)), needles(keywords))
}

/// Case sensitivity: keywords that hold an upper-case letter are held
/// against the path as it is, and keywords that hold none against the path
/// in lower case, so that the case of the path then makes no difference.
pub proof fn lemma_case_rule(path: Seq<char>, other: Seq<char>, keywords: Seq<Seq<char>>)
    ensures
        case_sensitive(keywords) ==> path_matches(path, keywords) == keywords_match(
            utf8(path),
            needles(keywords),
        ),
        !case_sensitive(keywords) ==> path_matches(path, keywords) == keywords_match(
            lowered(utf8(path)),
            needles(keywords),
        ),
        !case_sensitive(keywords) && lowered(utf8(path)) == lowered(utf8(other)) ==> path_matches(
            path,
            keywords,
        ) == path_matches(other, keywords),
{
}

/// The first keywords of a placement are placed by its first indices.
pub proof fn lemma_placement_prefix(hay: Seq<u8>, keywords: Seq<Seq<u8>>, at: Seq<int>, n: int)
    requires
        placement(hay, keywords, at),
        0 <= n <= keywords.len(),
    ensures
        placement(hay, keywords.take(n), at.take(n)),
{
    reveal(placement);
    assert forall|i: int| #![trigger at.take(n)[i]] 0 <= i < n implies occurs_at(
        hay,
        keywords.take(n)[i],
        at.take(n)[i],
    ) by {
        assert(occurs_at(hay, keywords[i], at[i]));
    }
    assert forall|i: int| #![trigger at.take(n)[i]] 0 < i < n implies at.take(n)[i - 1]
        + keywords.take(n)[i - 1].len() <= at.take(n)[i] by {
        assert(at[i - 1] + keywords[i - 1].len() <= at[i]);
    }
}

/// A placement grows by a keyword that stands behind its last one.
pub proof fn lemma_placement_extend(
    hay: Seq<u8>,
    keywords: Seq<Seq<u8>>,
    at: Seq<int>,
    keyword: Seq<u8>,
    next: int,
)
    requires
        placement(hay, keywords, at),
        occurs_at(hay, keyword, next),
        keywords.len() > 0 ==> at.last() + keywords.last().len() <= next,
    ensures
        placement(hay, keywords.push(keyword), at.push(next)),
{
    reveal(placement);
    let more = keywords.push(keyword);
    let places = at.push(next);
    assert forall|i: int| #![trigger places[i]] 0 <= i < more.len() implies occurs_at(
        hay,
        more[i],
        places[i],
    ) by {
        if i < keywords.len() {
            assert(occurs_at(hay, keywords[i], at[i]));
        }
    }
    assert forall|i: int| #![trigger places[i]] 0 < i < more.len() implies places[i - 1] + more[i
        - 1].len() <= places[i] by {
        if i < keywords.len() {
            assert(at[i - 1] + keywords[i - 1].len() <= at[i]);
        }
    }
}

/// In any placement, a keyword stands no earlier than the keywords before
/// it can end.
pub proof fn lemma_next_not_before(
    hay: Seq<u8>,
    keywords: Seq<Seq<u8>>,
    at: Seq<int>,
    i: int,
    from: int,
)
    requires
        placement(hay, keywords, at),
        0 <= i < keywords.len(),
        ends_no_earlier(hay, keywords.take(i), from),
        i == 0 ==> from <= 0,
    ensures
        at.len() == keywords.len(),
        at[i] >= from,
        occurs_at(hay, keywords[i], at[i]),
{
    reveal(placement);
    reveal(ends_no_earlier);
    assert(occurs_at(hay, keywords[i], at[i]));
    if i > 0 {
        lemma_placement_prefix(hay, keywords, at, i);
        assert(at.take(i).last() == at[i - 1]);
        assert(keywords.take(i).last() == keywords[i - 1]);
        assert(at[i - 1] + keywords[i - 1].len() <= at[i]);
    }
}

/// The two conditions of a match can be tested apart: the keywords match
/// exactly if they can be placed in their order, and the last of them
/// stands somewhere within the final component.
pub proof fn lemma_match_by_two_conditions(hay: Seq<u8>, keywords: Seq<Seq<u8>>)
    requires
        keywords.len() > 0,
    ensures
        keywords_match(hay, keywords) <==> {
            &&& exists|at: Seq<int>| #[trigger] placement(hay, keywords, at)
            &&& exists|last: int|
                basename_start(hay) <= last && #[trigger] occurs_at(hay, keywords.last(), last)
        },
{
    reveal(placement);
    let n = keywords.len() as int;
    if keywords_match(hay, keywords) {
        let at = choose|at: Seq<int>|
            #[trigger] placement(hay, keywords, at) && at.last() >= basename_start(hay);
        assert(occurs_at(hay, keywords.last(), at[n - 1]));
    }
    if (exists|at: Seq<int>| #[trigger] placement(hay, keywords, at)) && (exists|last: int|
        basename_start(hay) <= last && #[trigger] occurs_at(hay, keywords.last(), last)) {
        let at = choose|at: Seq<int>| #[trigger] placement(hay, keywords, at);
        let last = choose|last: int|
            basename_start(hay) <= last && #[trigger] occurs_at(hay, keywords.last(), last);
        if at.last() < basename_start(hay) {
            let moved = at.update(n - 1, last);
            assert forall|i: int| #![trigger moved[i]] 0 <= i < n implies occurs_at(
                hay,
                keywords[i],
                moved[i],
            ) by {
                if i < n - 1 {
                    assert(occurs_at(hay, keywords[i], at[i]));
                }
            }
            assert forall|i: int| #![trigger moved[i]] 0 < i < n implies moved[i - 1] + keywords[i
                - 1].len() <= moved[i] by {
                assert(at[i - 1] + keywords[i - 1].len() <= at[i]);
            }
            assert(placement(hay, keywords, moved));
            assert(moved.last() >= basename_start(hay));
        }
    }
}

/// Finds where the final component of a path starts.
pub fn find_basename(path: &[u8]) -> (start: usize)
    ensures
        start == basename_start(path@),
{
    let mut end: usize = path.len();
    assert(path@.take(end as int) =~= path@);
    while end > 0
        invariant
            end <= path@.len(),
            basename_start(path@) == basename_start(path@.take(end as int)),
        decreases end,
    {
        if path[end - 1] == SEPARATOR {
            return end;
        }
        assert(path@.take(end as int).drop_last() =~= path@.take(end - 1));
        end -= 1;
    }
    0
}

/// A search that finds no place for a keyword behind the keywords before
/// it shows that the keywords do not match.
proof fn lemma_keyword_missing(hay: Seq<u8>, keywords: Seq<Seq<u8>>, i: int, from: int)
    requires
        0 <= i < keywords.len(),
        ends_no_earlier(hay, keywords.take(i), from),
        i == 0 ==> from <= 0,
        forall|k: int| from <= k ==> !occurs_at(hay, keywords[i], k),
    ensures
        !keywords_match(hay, keywords),
{
    assert forall|other: Seq<int>| #[trigger] placement(hay, keywords, other) implies false by {
        lemma_next_not_before(hay, keywords, other, i, from);
    }
}

/// The first place found for a keyword behind the keywords before it
/// extends their placement, and no placement of them all ends earlier.
proof fn lemma_keyword_found(
    hay: Seq<u8>,
    keywords: Seq<Seq<u8>>,
    at: Seq<int>,
    i: int,
    from: int,
    here: int,
)
    requires
        0 <= i < keywords.len(),
        placement(hay, keywords.take(i), at),
        i > 0 ==> at.last() + keywords[i - 1].len() <= here,
        ends_no_earlier(hay, keywords.take(i), from),
        i == 0 ==> from <= 0,
        occurs_at(hay, keywords[i], here),
        forall|k: int| from <= k < here ==> !occurs_at(hay, keywords[i], k),
    ensures
        placement(hay, keywords.take(i + 1), at.push(here)),
        ends_no_earlier(hay, keywords.take(i + 1), here + keywords[i].len()),
{
    reveal(ends_no_earlier);
    let upto = keywords.take(i + 1);
    assert(upto =~= keywords.take(i).push(keywords[i]));
    assert(upto.take(i) =~= keywords.take(i));
    if i > 0 {
        assert(keywords.take(i).last() == keywords[i - 1]);
    }
    lemma_placement_extend(hay, keywords.take(i), at, keywords[i], here);
    assert forall|other: Seq<int>| #[trigger]
        placement(hay, upto, other) implies other.last() + upto.last().len() >= here
        + keywords[i].len() by {
        lemma_next_not_before(hay, upto, other, i, from);
        assert(other.last() == other[i]);
        assert(upto[i] == keywords[i]);
    }
}

/// A search for the last keyword, behind the keywords before it and within
/// the final component, decides whether the keywords match.
proof fn lemma_last_keyword(
    hay: Seq<u8>,
    keywords: Seq<Seq<u8>>,
    at: Seq<int>,
    from: int,
    start: int,
    found: Option<int>,
)
    requires
        keywords.len() > 0,
        placement(hay, keywords.take(keywords.len() - 1), at),
        keywords.len() > 1 ==> at.last() + keywords[keywords.len() - 2].len() <= from,
        ends_no_earlier(hay, keywords.take(keywords.len() - 1), from),
        keywords.len() == 1 ==> from <= 0,
        start == if from > basename_start(hay) {
            from
        } else {
            basename_start(hay)
        },
        match found {
            Some(here) => start <= here && occurs_at(hay, keywords.last(), here),
            None => forall|k: int| start <= k ==> !occurs_at(hay, keywords.last(), k),
        },
    ensures
        found is Some <==> keywords_match(hay, keywords),
{
    let n = keywords.len() as int;
    assert(keywords =~= keywords.take(n - 1).push(keywords[n - 1]));
    if n > 1 {
        assert(keywords.take(n - 1).last() == keywords[n - 2]);
    }
    match found {
        None => {
            assert forall|other: Seq<int>| #[trigger]
                placement(hay, keywords, other) && other.last() >= basename_start(
                    hay,
                ) implies false by {
                lemma_next_not_before(hay, keywords, other, n - 1, from);
                assert(other.last() == other[n - 1]);
                assert(occurs_at(hay, keywords.last(), other[n - 1]));
            }
        },
        Some(here) => {
            lemma_placement_extend(hay, keywords.take(n - 1), at, keywords[n - 1], here);
            assert(placement(hay, keywords, at.push(here)));
        },
    }
}

/// Whether the keywords match `hay`: each keyword is searched from the end
/// of the one before it, the last one no earlier than the final component.
pub fn match_keywords(hay: &[u8], keywords: &Vec<Vec<u8>>) -> (found: bool)
    ensures
        found == keywords_match(hay@, byte_views(keywords@)),
{
    let ghost kws = byte_views(keywords@);
    let n = keywords.len();
    if n == 0 {
        assert(placement(hay@, kws, Seq::<int>::empty())) by {
            reveal(placement);
        }
        return true;
    }
    let total = hay.len();
    let ghost mut at: Seq<int> = Seq::empty();
    let mut from: usize = 0;
    let mut i: usize = 0;
    assert(kws.take(0) =~= Seq::<Seq<u8>>::empty());
    assert(placement(hay@, kws.take(0), at)) by {
        reveal(placement);
    }
    assert(ends_no_earlier(hay@, kws.take(0), 0)) by {
        reveal(ends_no_earlier);
    }
    while i < n - 1
        invariant
            0 < n == keywords@.len(),
            i <= n - 1,
            kws == byte_views(keywords@),
            from <= total == hay@.len(),
            i == 0 ==> from == 0,
            placement(hay@, kws.take(i as int), at),
            i > 0 ==> at.last() + kws[i - 1].len() == from,
            ends_no_earlier(hay@, kws.take(i as int), from as int),
        decreases n - i,
    {
        match find_from(hay, keywords[i].as_slice(), from) {
            None => {
                proof {
                    lemma_keyword_missing(hay@, kws, i as int, from as int);
                }
                return false;
            },
            Some(here) => {
                proof {
                    lemma_keyword_found(hay@, kws, at, i as int, from as int, here as int);
                    at = at.push(here as int);
                }
                from = here + keywords[i].len();
                i += 1;
            },
        }
    }
    let base = find_basename(hay);
    let start = if from > base {
        from
    } else {
        base
    };
    let found = find_from(hay, keywords[n - 1].as_slice(), start);
    proof {
        let place = match found {
            Some(here) => Some(here as int),
            None => None,
        };
        lemma_last_keyword(hay@, kws, at, from as int, start as int, place);
    }
    found.is_some()
}

/// The bytes of the keywords, and whether matching is case-sensitive.
pub(crate) fn prepare(keywords: &Vec<String>) -> (prepared: (Vec<Vec<u8>>, bool))
    ensures
        byte_views(prepared.0@) == needles(texts(keywords@)),
        prepared.1 == case_sensitive(texts(keywords@)),
{
    let mut bytes: Vec<Vec<u8>> = Vec::new();
    let mut sensitive = false;
    let mut i: usize = 0;
    while i < keywords.len()
        invariant
            i <= keywords@.len(),
            bytes@.len() == i,
            forall|k: int| 0 <= k < i ==> (#[trigger] bytes@[k])@ == utf8(keywords@[k]@),
            sensitive == exists|k: int|
                0 <= k < i && has_upper(utf8(#[trigger] texts(keywords@)[k])),
        decreases keywords@.len() - i,
    {
        let keyword = keywords[i].as_str().as_bytes();
        if contains_upper(keyword) {
            assert(has_upper(utf8(texts(keywords@)[i as int])));
            sensitive = true;
        }
        bytes.push(slice_to_vec(keyword));
        i += 1;
    }
    assert(byte_views(bytes@) =~= needles(texts(keywords@)));
    (bytes, sensitive)
}

/// Whether prepared keywords match the path.
pub(crate) fn matches_prepared(path: &str, keywords: &Vec<Vec<u8>>, sensitive: bool) -> (found: bool)
    ensures
        found == keywords_match(haystack(path@, sensitive), byte_views(keywords@)),
{
    if sensitive {
        match_keywords(path.as_bytes(), keywords)
    } else {
        let folded = to_lower(path.as_bytes());
        match_keywords(folded.as_slice(), keywords)
    }
}

/// Whether the keywords match the path: every keyword stands in the path,
/// in the order of the keywords and without overlap, and the last keyword
/// stands in the final component. Upper and lower case are told apart only
/// if a keyword holds an upper-case letter.
pub fn is_match(path: &str, keywords: &Vec<String>) -> (found: bool)
    ensures
        found == path_matches(path@, texts(keywords@)),
{
    let (bytes, sensitive) = prepare(keywords);
    matches_prepared(path, &bytes, sensitive)
}

} // verus!
