//! Literal query matching over byte strings.
//!
//! A query is plain text, never a pattern language: every byte of it must
//! appear in the content literally (up to ASCII case folding when the search
//! is case-insensitive). Matching scans left to right and reports all
//! non-overlapping occurrences in ascending start-offset order; after a match
//! the scan resumes right behind it. With whole-word matching switched on, an
//! occurrence counts only if both of its edges lie on a word boundary: a
//! position where exactly one of the two neighbouring bytes is a word byte
//! (positions outside the content count as non-word).

use vstd::prelude::*;

verus! {

/// ASCII case folding of one byte: upper-case letters map to lower case,
/// every other byte is unchanged.
pub open spec fn fold_byte(b: u8) -> u8 {
    if 65 <= b && b <= 90 {
        (b + 32) as u8
    } else {
        b
    }
}

/// ASCII word bytes: letters, digits and the underscore.
pub open spec fn is_word_byte(b: u8) -> bool {
    ||| 48 <= b && b <= 57
    ||| 65 <= b && b <= 90
    ||| 97 <= b && b <= 122
    ||| b == 95
}

/// Two bytes are equal for the purposes of the search: literally when the
/// search is case-sensitive, up to ASCII case folding otherwise.
pub open spec fn byte_match(a: u8, b: u8, case_sensitive: bool) -> bool {
    if case_sensitive {
        a == b
    } else {
        fold_byte(a) == fold_byte(b)
    }
}

/// The query occurs in the content starting at offset `i`.
pub open spec fn occurs_at(content: Seq<u8>, query: Seq<u8>, i: int, case_sensitive: bool) -> bool {
    &&& 0 <= i
    &&& i + query.len() <= content.len()
    &&& forall|j: int| 0 <= j < query.len() ==> byte_match(content[i + j], query[j], case_sensitive)
}

/// The byte at position `p` exists and is a word byte.
pub open spec fn word_at(content: Seq<u8>, p: int) -> bool {
    0 <= p < content.len() && is_word_byte(content[p])
}

/// A word boundary sits at position `p`: exactly one of the byte before `p`
/// and the byte at `p` is a word byte (positions outside the content count
/// as non-word).
pub open spec fn is_boundary(content: Seq<u8>, p: int) -> bool {
    word_at(content, p - 1) != word_at(content, p)
}

/// The query matches at offset `i` under the given options.
pub open spec fn match_at(
    content: Seq<u8>,
    query: Seq<u8>,
    i: int,
    case_sensitive: bool,
    match_word: bool,
) -> bool {
    &&& occurs_at(content, query, i, case_sensitive)
    &&& (match_word ==> is_boundary(content, i) && is_boundary(content, i + query.len()))
}

/// The start offsets of all non-overlapping matches at or after `from`, in
/// ascending order: the scan takes the leftmost match and resumes right
/// behind it.
pub open spec fn positions_from(
    content: Seq<u8>,
    query: Seq<u8>,
    case_sensitive: bool,
    match_word: bool,
    from: int,
) -> Seq<int>
    decreases content.len() - from,
    when query.len() > 0
{
    if from + query.len() > content.len() {
        Seq::empty()
    } else if match_at(content, query, from, case_sensitive, match_word) {
        seq![from] + positions_from(content, query, case_sensitive, match_word, from + query.len())
    } else {
        positions_from(content, query, case_sensitive, match_word, from + 1)
    }
}

/// The start offsets of all non-overlapping matches of the query in the
/// content, in ascending order.
pub open spec fn match_positions(
    content: Seq<u8>,
    query: Seq<u8>,
    case_sensitive: bool,
    match_word: bool,
) -> Seq<int> {
    positions_from(content, query, case_sensitive, match_word, 0)
}

/// A sequence of byte offsets, seen as mathematical integers.
pub open spec fn as_ints(s: Seq<usize>) -> Seq<int> {
    s.map_values(|p: usize| p as int)
}

/// The scan's characterisation from `from` on: every reported position is a
/// genuine match with room for the whole query, the positions come in
/// strictly ascending order with no two overlapping, and no match is passed
/// over — every match position at or after `from` overlaps some reported
/// occurrence.
#[verifier::rlimit(60)]
pub proof fn lemma_positions_characterise(
    content: Seq<u8>,
    query: Seq<u8>,
    case_sensitive: bool,
    match_word: bool,
    from: int,
)
    requires
        query.len() > 0,
    ensures
        ({
            let ps = positions_from(content, query, case_sensitive, match_word, from);
            &&& forall|k: int|
                0 <= k < ps.len() ==> from <= #[trigger] ps[k] && ps[k] + query.len()
                    <= content.len() && match_at(content, query, ps[k], case_sensitive, match_word)
            &&& forall|k: int| 0 <= k < ps.len() - 1 ==> #[trigger] ps[k] + query.len() <= ps[k + 1]
            &&& forall|i: int|
                from <= i && match_at(content, query, i, case_sensitive, match_word)
                    ==> exists|k: int|
                    0 <= k < ps.len() && #[trigger] ps[k] <= i < ps[k] + query.len()
        }),
    decreases content.len() - from,
{
    let ps = positions_from(content, query, case_sensitive, match_word, from);
    if from + query.len() > content.len() {
        assert forall|i: int|
            from <= i && match_at(content, query, i, case_sensitive, match_word)
            implies exists|k: int|
            0 <= k < ps.len() && #[trigger] ps[k] <= i < ps[k] + query.len() by {
            assert(i + query.len() <= content.len());
            assert(false);
        }
    } else if match_at(content, query, from, case_sensitive, match_word) {
        let next = from + query.len() as int;
        lemma_positions_characterise(content, query, case_sensitive, match_word, next);
        let rest = positions_from(content, query, case_sensitive, match_word, next);
        assert(ps == seq![from] + rest);
        assert(ps[0] == from);
        assert(forall|k: int| 0 <= k < rest.len() ==> ps[k + 1] == #[trigger] rest[k]);
        assert forall|i: int|
            from <= i && match_at(content, query, i, case_sensitive, match_word)
            implies exists|k: int|
            0 <= k < ps.len() && #[trigger] ps[k] <= i < ps[k] + query.len() by {
            if i < next {
                assert(ps[0] <= i < ps[0] + query.len());
            } else {
                let k = choose|k: int|
                    0 <= k < rest.len() && #[trigger] rest[k] <= i < rest[k] + query.len();
                assert(ps[k + 1] <= i < ps[k + 1] + query.len());
            }
        }
    } else {
        lemma_positions_characterise(content, query, case_sensitive, match_word, from + 1);
        assert(ps == positions_from(content, query, case_sensitive, match_word, from + 1));
        assert forall|i: int|
            from <= i && match_at(content, query, i, case_sensitive, match_word)
            implies exists|k: int|
            0 <= k < ps.len() && #[trigger] ps[k] <= i < ps[k] + query.len() by {
            assert(i != from);
        }
    }
}

/// The scan's characterisation for a whole content: see
/// `lemma_positions_characterise`.
pub proof fn lemma_match_positions_characterise(
    content: Seq<u8>,
    query: Seq<u8>,
    case_sensitive: bool,
    match_word: bool,
)
    requires
        query.len() > 0,
    ensures
        ({
            let ps = match_positions(content, query, case_sensitive, match_word);
            &&& forall|k: int|
                0 <= k < ps.len() ==> 0 <= #[trigger] ps[k] && ps[k] + query.len()
                    <= content.len() && match_at(content, query, ps[k], case_sensitive, match_word)
            &&& forall|k: int| 0 <= k < ps.len() - 1 ==> #[trigger] ps[k] + query.len() <= ps[k + 1]
            &&& forall|i: int|
                match_at(content, query, i, case_sensitive, match_word) ==> exists|k: int|
                    0 <= k < ps.len() && #[trigger] ps[k] <= i < ps[k] + query.len()
        }),
{
    lemma_positions_characterise(content, query, case_sensitive, match_word, 0);
    let ps = match_positions(content, query, case_sensitive, match_word);
    assert forall|i: int| match_at(content, query, i, case_sensitive, match_word)
        implies exists|k: int|
        0 <= k < ps.len() && #[trigger] ps[k] <= i < ps[k] + query.len() by {
        assert(0 <= i);
    }
}

/// A byte string with every byte case-folded.
pub open spec fn fold_seq(s: Seq<u8>) -> Seq<u8> {
    s.map_values(|b: u8| fold_byte(b))
}

/// The case-sensitivity law: a case-insensitive occurrence is exactly a
/// case-sensitive occurrence of the folded query in the folded content, so
/// letter case never decides a case-insensitive search and always decides a
/// case-sensitive one.
pub proof fn lemma_case_fold(content: Seq<u8>, query: Seq<u8>, i: int)
    ensures
        occurs_at(content, query, i, false) == occurs_at(fold_seq(content), fold_seq(query), i, true),
{
    assert(fold_seq(content).len() == content.len());
    assert(fold_seq(query).len() == query.len());
    assert forall|j: int| 0 <= j < query.len() && i + query.len() <= content.len() && 0 <= i
        implies byte_match(content[i + j], query[j], false) == byte_match(
        fold_seq(content)[i + j],
        fold_seq(query)[j],
        true,
    ) by {
        assert(fold_seq(content)[i + j] == fold_byte(content[i + j]));
        assert(fold_seq(query)[j] == fold_byte(query[j]));
        assert(fold_byte(fold_byte(content[i + j])) == fold_byte(content[i + j]));
        assert(fold_byte(fold_byte(query[j])) == fold_byte(query[j]));
    }
}

/// The whole-word law: a whole-word match is also a plain match — switching
/// `match_word` on only ever removes occurrences, never adds one.
pub proof fn lemma_whole_word_narrows(
    content: Seq<u8>,
    query: Seq<u8>,
    i: int,
    case_sensitive: bool,
)
    ensures
        match_at(content, query, i, case_sensitive, true) ==> match_at(
            content,
            query,
            i,
            case_sensitive,
            false,
        ),
{
}

fn fold_byte_exec(b: u8) -> (r: u8)
    ensures
        r == fold_byte(b),
{
    if 65 <= b && b <= 90 {
        b + 32
    } else {
        b
    }
}

fn is_word_byte_exec(b: u8) -> (r: bool)
    ensures
        r == is_word_byte(b),
{
    (48 <= b && b <= 57) || (65 <= b && b <= 90) || (97 <= b && b <= 122) || b == 95
}

/// Does the query match at offset `i` of the content?
pub fn match_at_exec(
    content: &Vec<u8>,
    query: &Vec<u8>,
    i: usize,
    case_sensitive: bool,
    match_word: bool,
) -> (r: bool)
    requires
        i <= content@.len(),
    ensures
        r == match_at(content@, query@, i as int, case_sensitive, match_word),
{
    if query.len() > content.len() - i {
        return false;
    }
    let mut j: usize = 0;
    while j < query.len()
        invariant
            i + query@.len() <= content@.len(),
            content@.len() <= usize::MAX,
            0 <= j <= query@.len(),
            forall|t: int| 0 <= t < j ==> byte_match(content@[i + t], query@[t], case_sensitive),
        decreases query@.len() - j,
    {
        let a = content[i + j];
        let b = query[j];
        let same = if case_sensitive {
            a == b
        } else {
            fold_byte_exec(a) == fold_byte_exec(b)
        };
        if !same {
            return false;
        }
        j += 1;
    }
    if match_word {
        let word_before_start = i > 0 && is_word_byte_exec(content[i - 1]);
        let word_at_start = i < content.len() && is_word_byte_exec(content[i]);
        let e = i + query.len();
        let word_before_end = e > 0 && is_word_byte_exec(content[e - 1]);
        let word_at_end = e < content.len() && is_word_byte_exec(content[e]);
        (word_before_start != word_at_start) && (word_before_end != word_at_end)
    } else {
        true
    }
}

/// All non-overlapping match positions of the query in the content, in
/// ascending start-offset order.
pub fn find_positions(
    content: &Vec<u8>,
    query: &Vec<u8>,
    case_sensitive: bool,
    match_word: bool,
) -> (r: Vec<usize>)
    requires
        query@.len() > 0,
    ensures
        as_ints(r@) == match_positions(content@, query@, case_sensitive, match_word),
        forall|k: int| 0 <= k < r@.len() ==> #[trigger] r@[k] + query@.len() <= content@.len(),
{
    let ghost all = match_positions(content@, query@, case_sensitive, match_word);
    let mut out: Vec<usize> = Vec::new();
    let mut i: usize = 0;
    while i <= content.len() && query.len() <= content.len() - i
        invariant
            query@.len() > 0,
            0 <= i <= content@.len() + 1,
            all == as_ints(out@) + positions_from(
                content@,
                query@,
                case_sensitive,
                match_word,
                i as int,
            ),
            forall|k: int|
                0 <= k < out@.len() ==> #[trigger] out@[k] + query@.len() <= content@.len(),
        decreases content@.len() + 1 - i,
    {
        if match_at_exec(content, query, i, case_sensitive, match_word) {
            let ghost old_out = out@;
            out.push(i);
            proof {
                assert(as_ints(out@) =~= as_ints(old_out).push(i as int));
                assert(positions_from(content@, query@, case_sensitive, match_word, i as int)
                    == seq![i as int] + positions_from(
                    content@,
                    query@,
                    case_sensitive,
                    match_word,
                    i as int + query@.len(),
                ));
                assert(all =~= as_ints(out@) + positions_from(
                    content@,
                    query@,
                    case_sensitive,
                    match_word,
                    i as int + query@.len(),
                ));
            }
            i += query.len();
        } else {
            i += 1;
        }
    }
    proof {
        assert(positions_from(content@, query@, case_sensitive, match_word, i as int)
            =~= Seq::<int>::empty());
        assert(all =~= as_ints(out@));
    }
    out
}

} // verus!
