//! Context window extraction around one match occurrence.
//!
//! Given the full file content, a match's start offset and its length, the
//! window is built in three stages. First the enclosing paragraph is taken:
//! the span between the nearest double-newline strictly before the match
//! start (or the start of the content) and the nearest double-newline at or
//! after the match end (or the end of the content). Then the paragraph is
//! split into sentence-like segments on `.`, `?` and `!` (delimiters are
//! consumed); if there are four or more segments, the window narrows to the
//! segment before the first segment that contains the matched bytes, that
//! segment itself, and the segment after it, clamped at the paragraph's
//! bounds. Finally the kept segments are rejoined with `". "`, the result is
//! trimmed of leading and trailing ASCII whitespace, and a single `.` is
//! appended unconditionally (so text that already ended in terminal
//! punctuation keeps its period and gains a second one; that artifact is
//! deliberate, not corrected).
//!
//! Locating the match's segment by a plain containment check can pick an
//! earlier segment when the same literal text already occurs there; that,
//! too, is deliberate behaviour of this engine.

use vstd::prelude::*;
use crate::matcher::occurs_at;

verus! {

/// The start of the paragraph enclosing offset `i`: the position right after
/// the nearest `\n\n` (bytes 10, 10) that ends at or before `i`, or 0 when
/// there is none.
pub open spec fn para_start(content: Seq<u8>, i: int) -> int
    decreases i,
{
    if i < 2 {
        0
    } else if content[i - 2] == 10 && content[i - 1] == 10 {
        i
    } else {
        para_start(content, i - 1)
    }
}

/// The end of the paragraph enclosing a match that ends at `from`: the
/// position of the nearest `\n\n` starting at or after `from`, or the end of
/// the content when there is none.
pub open spec fn para_end(content: Seq<u8>, from: int) -> int
    decreases content.len() - from,
{
    if from + 2 > content.len() {
        content.len() as int
    } else if content[from] == 10 && content[from + 1] == 10 {
        from
    } else {
        para_end(content, from + 1)
    }
}

/// Sentence delimiters: `.`, `?` and `!`.
pub open spec fn is_delim(b: u8) -> bool {
    b == 46 || b == 63 || b == 33
}

/// ASCII whitespace: space, tab, line feed, vertical tab, form feed and
/// carriage return.
pub open spec fn is_space(b: u8) -> bool {
    b == 32 || (9 <= b && b <= 13)
}

/// Splitting `s` on sentence delimiters, scanning from `cur` with the
/// current segment having started at `start`: every delimiter ends a
/// segment, and the tail after the last delimiter is a segment too (so
/// consecutive delimiters and a trailing delimiter yield empty segments).
pub open spec fn split_from(s: Seq<u8>, start: int, cur: int) -> Seq<Seq<u8>>
    decreases s.len() - cur,
{
    if cur >= s.len() {
        seq![s.subrange(start, s.len() as int)]
    } else if is_delim(s[cur]) {
        seq![s.subrange(start, cur)] + split_from(s, cur + 1, cur + 1)
    } else {
        split_from(s, start, cur + 1)
    }
}

/// The sentence-like segments of `s`: the spans between sentence delimiters,
/// delimiters consumed.
pub open spec fn segments(s: Seq<u8>) -> Seq<Seq<u8>> {
    split_from(s, 0, 0)
}

/// The needle occurs somewhere in the segment, compared byte for byte.
pub open spec fn seg_contains(seg: Seq<u8>, needle: Seq<u8>) -> bool {
    exists|i: int| occurs_at(seg, needle, i, true)
}

/// The index of the first segment at or after `k` that contains the needle,
/// or 0 when no segment does.
pub open spec fn first_containing(segs: Seq<Seq<u8>>, needle: Seq<u8>, k: int) -> int
    decreases segs.len() - k,
{
    if k >= segs.len() {
        0
    } else if seg_contains(segs[k], needle) {
        k
    } else {
        first_containing(segs, needle, k + 1)
    }
}

/// The segments with indices in `[k, hi)`, joined with `". "` (bytes 46, 32)
/// between neighbours.
pub open spec fn join_upto(segs: Seq<Seq<u8>>, k: int, hi: int) -> Seq<u8>
    decreases hi - k,
{
    if k < hi {
        if k == hi - 1 {
            segs[k]
        } else {
            segs[k] + seq![46u8, 32u8] + join_upto(segs, k + 1, hi)
        }
    } else {
        Seq::empty()
    }
}

/// `s` without its leading ASCII whitespace.
pub open spec fn trim_start(s: Seq<u8>) -> Seq<u8>
    decreases s.len(),
{
    if s.len() > 0 && is_space(s[0]) {
        trim_start(s.drop_first())
    } else {
        s
    }
}

/// `s` without its trailing ASCII whitespace.
pub open spec fn trim_end(s: Seq<u8>) -> Seq<u8>
    decreases s.len(),
{
    if s.len() > 0 && is_space(s.last()) {
        trim_end(s.drop_last())
    } else {
        s
    }
}

/// `s` without leading and trailing ASCII whitespace.
pub open spec fn trim(s: Seq<u8>) -> Seq<u8> {
    trim_end(trim_start(s))
}

/// The lower bound (inclusive) of the kept segment window: one segment
/// before the first segment containing the matched bytes, clamped at 0; the
/// whole paragraph when there are fewer than four segments.
pub open spec fn narrow_lo(segs: Seq<Seq<u8>>, matched: Seq<u8>) -> int {
    if segs.len() > 3 {
        let si = first_containing(segs, matched, 0);
        if si >= 1 {
            si - 1
        } else {
            0
        }
    } else {
        0
    }
}

/// The upper bound (exclusive) of the kept segment window: one segment after
/// the first segment containing the matched bytes, clamped at the segment
/// count; the whole paragraph when there are fewer than four segments.
pub open spec fn narrow_hi(segs: Seq<Seq<u8>>, matched: Seq<u8>) -> int {
    if segs.len() > 3 {
        let si = first_containing(segs, matched, 0);
        if si + 2 <= segs.len() {
            si + 2
        } else {
            segs.len() as int
        }
    } else {
        segs.len() as int
    }
}

/// The preview built from one paragraph and the literal matched bytes: the
/// kept segments joined with `". "`, trimmed, with one `.` appended.
pub open spec fn preview_of_paragraph(para: Seq<u8>, matched: Seq<u8>) -> Seq<u8> {
    let segs = segments(para);
    trim(join_upto(segs, narrow_lo(segs, matched), narrow_hi(segs, matched))) + seq![46u8]
}

/// The context preview for a match of `len` bytes starting at `index`.
pub open spec fn extract_context_spec(content: Seq<u8>, index: int, len: int) -> Seq<u8> {
    let ps = para_start(content, index);
    let pe = para_end(content, index + len);
    preview_of_paragraph(content.subrange(ps, pe), content.subrange(index, index + len))
}

/// The paragraph start lies between 0 and `i`, sits right after a
/// double-newline unless it is 0, and no double-newline ends strictly
/// between it and `i`: the window never reaches into the paragraph before
/// it.
pub proof fn lemma_para_start_bounds(content: Seq<u8>, i: int)
    requires
        0 <= i <= content.len(),
    ensures
        0 <= para_start(content, i) <= i,
        para_start(content, i) == 0 || (content[para_start(content, i) - 2] == 10
            && content[para_start(content, i) - 1] == 10),
        forall|t: int|
            0 <= t && para_start(content, i) - 1 <= t && t + 2 <= i ==> !(content[t] == 10
                && #[trigger] content[t + 1] == 10),
    decreases i,
{
    if i < 2 {
    } else if content[i - 2] == 10 && content[i - 1] == 10 {
    } else {
        lemma_para_start_bounds(content, i - 1);
    }
}

/// The paragraph end lies between `from` and the content's end, sits on a
/// double-newline unless it is the content's end, and no double-newline
/// starts between `from` and it: the window never reaches into the paragraph
/// after it.
pub proof fn lemma_para_end_bounds(content: Seq<u8>, from: int)
    requires
        0 <= from <= content.len(),
    ensures
        from <= para_end(content, from) <= content.len(),
        para_end(content, from) == content.len() || (para_end(content, from) + 2 <= content.len()
            && content[para_end(content, from)] == 10
            && content[para_end(content, from) + 1] == 10),
        forall|t: int|
            from <= t < para_end(content, from) && t + 2 <= content.len() ==> !(content[t] == 10
                && #[trigger] content[t + 1] == 10),
    decreases content.len() - from,
{
    if from + 2 > content.len() {
    } else if content[from] == 10 && content[from + 1] == 10 {
    } else {
        lemma_para_end_bounds(content, from + 1);
    }
}

/// The index of the first containing segment lies within the segment list
/// (it is 0 when no segment contains the needle).
pub proof fn lemma_first_containing_bounds(segs: Seq<Seq<u8>>, needle: Seq<u8>, k: int)
    requires
        0 <= k,
    ensures
        0 <= first_containing(segs, needle, k),
        first_containing(segs, needle, k) == 0 || first_containing(segs, needle, k) < segs.len(),
    decreases segs.len() - k,
{
    if k >= segs.len() {
    } else if seg_contains(segs[k], needle) {
    } else {
        lemma_first_containing_bounds(segs, needle, k + 1);
    }
}

/// The preview depends only on the enclosing paragraph and the matched
/// bytes: two matches with equal paragraphs and equal matched text get equal
/// previews, whatever surrounds the paragraphs. Together with the paragraph
/// bound lemmas this says a preview never bleeds across a `\n\n` boundary.
pub proof fn lemma_no_cross_paragraph_bleed(
    c1: Seq<u8>,
    i1: int,
    l1: int,
    c2: Seq<u8>,
    i2: int,
    l2: int,
)
    requires
        c1.subrange(para_start(c1, i1), para_end(c1, i1 + l1)) == c2.subrange(
            para_start(c2, i2),
            para_end(c2, i2 + l2),
        ),
        c1.subrange(i1, i1 + l1) == c2.subrange(i2, i2 + l2),
    ensures
        extract_context_spec(c1, i1, l1) == extract_context_spec(c2, i2, l2),
{
}

/// The sentence-window law: with four or more segments and the matched
/// segment strictly inside the list, exactly the three segments around it
/// are kept; with three or fewer segments the whole paragraph is kept.
pub proof fn lemma_sentence_window(para: Seq<u8>, matched: Seq<u8>)
    ensures
        ({
            let segs = segments(para);
            let si = first_containing(segs, matched, 0);
            &&& (segs.len() > 3 && 1 <= si && si + 2 <= segs.len() ==> narrow_lo(segs, matched)
                == si - 1 && narrow_hi(segs, matched) == si + 2)
            &&& (segs.len() <= 3 ==> narrow_lo(segs, matched) == 0 && narrow_hi(segs, matched)
                == segs.len())
        }),
{
}

fn is_delim_exec(b: u8) -> (r: bool)
    ensures
        r == is_delim(b),
{
    b == 46 || b == 63 || b == 33
}

fn is_space_exec(b: u8) -> (r: bool)
    ensures
        r == is_space(b),
{
    b == 32 || (9 <= b && b <= 13)
}

/// A copy of the bytes of `s` with offsets in `[a, b)`.
pub fn subvec(s: &Vec<u8>, a: usize, b: usize) -> (r: Vec<u8>)
    requires
        a <= b <= s@.len(),
    ensures
        r@ == s@.subrange(a as int, b as int),
{
    let mut r: Vec<u8> = Vec::new();
    proof {
        assert(r@ =~= s@.subrange(a as int, a as int));
    }
    let mut k: usize = a;
    while k < b
        invariant
            a <= k <= b <= s@.len(),
            r@ == s@.subrange(a as int, k as int),
        decreases b - k,
    {
        r.push(s[k]);
        proof {
            assert(s@.subrange(a as int, k as int + 1) =~= s@.subrange(a as int, k as int).push(
                s@[k as int],
            ));
        }
        k += 1;
    }
    r
}

fn push_all(dst: &mut Vec<u8>, src: &Vec<u8>)
    ensures
        final(dst)@ == old(dst)@ + src@,
{
    let ghost base = dst@;
    let mut k: usize = 0;
    proof {
        assert(base + src@.subrange(0, 0) =~= base);
    }
    while k < src.len()
        invariant
            0 <= k <= src@.len(),
            dst@ == base + src@.subrange(0, k as int),
        decreases src@.len() - k,
    {
        dst.push(src[k]);
        proof {
            assert(base + src@.subrange(0, k as int + 1) =~= (base + src@.subrange(0, k as int)).push(
                src@[k as int],
            ));
        }
        k += 1;
    }
    proof {
        assert(base + src@.subrange(0, src@.len() as int) =~= base + src@);
    }
}

/// Paragraph start for a match starting at `i`.
pub fn find_para_start(content: &Vec<u8>, i: usize) -> (r: usize)
    requires
        i <= content@.len(),
    ensures
        r as int == para_start(content@, i as int),
        r <= i,
{
    let mut j: usize = i;
    while j >= 2
        invariant
            0 <= j <= i <= content@.len(),
            para_start(content@, i as int) == para_start(content@, j as int),
        decreases j,
    {
        if content[j - 2] == 10 && content[j - 1] == 10 {
            proof {
                assert(para_start(content@, j as int) == j as int);
                lemma_para_start_bounds(content@, i as int);
            }
            return j;
        }
        j -= 1;
    }
    proof {
        assert(para_start(content@, j as int) == 0);
    }
    0
}

/// Paragraph end for a match ending at `from`.
pub fn find_para_end(content: &Vec<u8>, from: usize) -> (r: usize)
    requires
        from <= content@.len(),
    ensures
        r as int == para_end(content@, from as int),
        from <= r <= content@.len(),
{
    proof {
        lemma_para_end_bounds(content@, from as int);
    }
    let mut j: usize = from;
    while content.len() >= 2 && j <= content.len() - 2
        invariant
            from <= j <= content@.len(),
            para_end(content@, from as int) == para_end(content@, j as int),
        decreases content@.len() - j,
    {
        if content[j] == 10 && content[j + 1] == 10 {
            proof {
                assert(para_end(content@, j as int) == j as int);
            }
            return j;
        }
        j += 1;
    }
    proof {
        assert(para_end(content@, j as int) == content@.len());
    }
    content.len()
}

/// A view of a list of byte vectors as a sequence of byte sequences.
pub open spec fn seg_views(segs: Seq<Vec<u8>>) -> Seq<Seq<u8>> {
    segs.map_values(|v: Vec<u8>| v@)
}

/// The sentence-like segments of `s`, as fresh byte vectors.
pub fn split_exec(s: &Vec<u8>) -> (r: Vec<Vec<u8>>)
    ensures
        seg_views(r@) == segments(s@),
{
    let mut out: Vec<Vec<u8>> = Vec::new();
    let mut seg_start: usize = 0;
    let mut cur: usize = 0;
    proof {
        assert(seg_views(out@) + split_from(s@, 0, 0) =~= segments(s@));
    }
    while cur < s.len()
        invariant
            0 <= seg_start <= cur <= s@.len(),
            segments(s@) == seg_views(out@) + split_from(s@, seg_start as int, cur as int),
        decreases s@.len() - cur,
    {
        if is_delim_exec(s[cur]) {
            let seg = subvec(s, seg_start, cur);
            let ghost old_out = out@;
            out.push(seg);
            proof {
                assert(split_from(s@, seg_start as int, cur as int) == seq![s@.subrange(
                    seg_start as int,
                    cur as int,
                )] + split_from(s@, cur as int + 1, cur as int + 1));
                assert(seg_views(out@) =~= seg_views(old_out).push(s@.subrange(
                    seg_start as int,
                    cur as int,
                )));
                assert(segments(s@) =~= seg_views(out@) + split_from(
                    s@,
                    cur as int + 1,
                    cur as int + 1,
                ));
            }
            seg_start = cur + 1;
        }
        cur += 1;
    }
    let seg = subvec(s, seg_start, s.len());
    let ghost old_out = out@;
    out.push(seg);
    proof {
        assert(split_from(s@, seg_start as int, cur as int) == seq![s@.subrange(
            seg_start as int,
            s@.len() as int,
        )]);
        assert(seg_views(out@) =~= seg_views(old_out).push(s@.subrange(
            seg_start as int,
            s@.len() as int,
        )));
        assert(segments(s@) =~= seg_views(out@));
    }
    out
}

/// Does the needle occur anywhere in the haystack, compared byte for byte?
pub fn contains_subslice(hay: &Vec<u8>, needle: &Vec<u8>) -> (r: bool)
    ensures
        r == seg_contains(hay@, needle@),
{
    if needle.len() > hay.len() {
        proof {
            assert(forall|t: int| !occurs_at(hay@, needle@, t, true));
        }
        return false;
    }
    let mut i: usize = 0;
    while i <= hay.len() - needle.len()
        invariant
            needle@.len() <= hay@.len(),
            0 <= i <= hay@.len() - needle@.len() + 1,
            forall|t: int| 0 <= t < i ==> !occurs_at(hay@, needle@, t, true),
        decreases hay@.len() - needle@.len() + 1 - i,
    {
        if crate::matcher::match_at_exec(hay, needle, i, true, false) {
            proof {
                assert(occurs_at(hay@, needle@, i as int, true));
            }
            return true;
        }
        i += 1;
    }
    proof {
        assert forall|t: int| !occurs_at(hay@, needle@, t, true) by {
            if occurs_at(hay@, needle@, t, true) {
                assert(0 <= t && t + needle@.len() <= hay@.len());
                assert(t < i);
            }
        }
    }
    false
}

/// The index of the first segment containing the needle, or 0 when none
/// does.
pub fn first_containing_exec(segs: &Vec<Vec<u8>>, needle: &Vec<u8>) -> (r: usize)
    ensures
        r as int == first_containing(seg_views(segs@), needle@, 0),
        r == 0 || r < segs@.len(),
{
    let mut k: usize = 0;
    while k < segs.len()
        invariant
            0 <= k <= segs@.len(),
            first_containing(seg_views(segs@), needle@, 0) == first_containing(
                seg_views(segs@),
                needle@,
                k as int,
            ),
        decreases segs@.len() - k,
    {
        if contains_subslice(&segs[k], needle) {
            proof {
                assert(seg_views(segs@)[k as int] == segs@[k as int]@);
                assert(first_containing(seg_views(segs@), needle@, k as int) == k as int);
            }
            return k;
        }
        proof {
            assert(seg_views(segs@)[k as int] == segs@[k as int]@);
        }
        k += 1;
    }
    proof {
        assert(first_containing(seg_views(segs@), needle@, k as int) == 0);
    }
    0
}

/// The segments with indices in `[lo, hi)`, joined with `". "`.
pub fn join_range(segs: &Vec<Vec<u8>>, lo: usize, hi: usize) -> (r: Vec<u8>)
    requires
        lo <= hi <= segs@.len(),
    ensures
        r@ == join_upto(seg_views(segs@), lo as int, hi as int),
{
    let ghost sv = seg_views(segs@);
    let mut out: Vec<u8> = Vec::new();
    let mut k: usize = lo;
    while k < hi
        invariant
            lo <= k <= hi <= segs@.len(),
            sv == seg_views(segs@),
            k == lo ==> out@ == Seq::<u8>::empty(),
            k > lo && k < hi ==> join_upto(sv, lo as int, hi as int) == out@ + seq![46u8, 32u8]
                + join_upto(sv, k as int, hi as int),
            k > lo && k == hi ==> join_upto(sv, lo as int, hi as int) == out@,
        decreases hi - k,
    {
        let ghost before = out@;
        if k > lo {
            out.push(46);
            out.push(32);
        }
        push_all(&mut out, &segs[k]);
        proof {
            assert(sv[k as int] == segs@[k as int]@);
            if k == lo {
                if k as int == hi - 1 {
                    assert(join_upto(sv, lo as int, hi as int) == sv[lo as int]);
                    assert(out@ =~= sv[lo as int]);
                } else {
                    assert(join_upto(sv, lo as int, hi as int) == sv[lo as int] + seq![46u8, 32u8]
                        + join_upto(sv, lo as int + 1, hi as int));
                    assert(out@ =~= sv[lo as int]);
                }
            } else {
                assert(join_upto(sv, lo as int, hi as int) == before + seq![46u8, 32u8]
                    + join_upto(sv, k as int, hi as int));
                if k as int == hi - 1 {
                    assert(join_upto(sv, k as int, hi as int) == sv[k as int]);
                    assert(out@ =~= before + seq![46u8, 32u8] + sv[k as int]);
                    assert(join_upto(sv, lo as int, hi as int) =~= out@);
                } else {
                    assert(join_upto(sv, k as int, hi as int) == sv[k as int] + seq![46u8, 32u8]
                        + join_upto(sv, k as int + 1, hi as int));
                    assert(out@ =~= before + seq![46u8, 32u8] + sv[k as int]);
                    assert(join_upto(sv, lo as int, hi as int) =~= out@ + seq![46u8, 32u8]
                        + join_upto(sv, k as int + 1, hi as int));
                }
            }
        }
        k += 1;
    }
    proof {
        if hi == lo {
            assert(join_upto(sv, lo as int, hi as int) =~= out@);
        }
    }
    out
}

/// `s` without leading and trailing ASCII whitespace, as a fresh vector.
pub fn trim_exec(s: &Vec<u8>) -> (r: Vec<u8>)
    ensures
        r@ == trim(s@),
{
    let mut a: usize = 0;
    proof {
        assert(s@.subrange(0, s@.len() as int) =~= s@);
    }
    while a < s.len() && is_space_exec(s[a])
        invariant
            0 <= a <= s@.len(),
            trim_start(s@) == trim_start(s@.subrange(a as int, s@.len() as int)),
        decreases s@.len() - a,
    {
        proof {
            let sub = s@.subrange(a as int, s@.len() as int);
            assert(sub.len() > 0 && is_space(sub[0]));
            assert(sub.drop_first() =~= s@.subrange(a as int + 1, s@.len() as int));
        }
        a += 1;
    }
    proof {
        let sub = s@.subrange(a as int, s@.len() as int);
        assert(trim_start(s@) == sub);
    }
    let mut b: usize = s.len();
    while b > a && is_space_exec(s[b - 1])
        invariant
            0 <= a <= b <= s@.len(),
            trim_start(s@) == s@.subrange(a as int, s@.len() as int),
            trim_end(s@.subrange(a as int, s@.len() as int)) == trim_end(
                s@.subrange(a as int, b as int),
            ),
        decreases b,
    {
        proof {
            let sub = s@.subrange(a as int, b as int);
            assert(sub.len() > 0 && is_space(sub.last()));
            assert(sub.drop_last() =~= s@.subrange(a as int, b as int - 1));
        }
        b -= 1;
    }
    proof {
        let sub = s@.subrange(a as int, b as int);
        assert(trim_end(sub) == sub);
    }
    subvec(s, a, b)
}

/// The context preview around a match of `query_len` bytes starting at
/// `index`: the enclosing paragraph, narrowed to at most three sentence
/// segments around the matched text, rejoined with `". "`, trimmed, and
/// terminated with one `.`.
pub fn extract_context(content: &Vec<u8>, index: usize, query_len: usize) -> (r: Vec<u8>)
    requires
        index + query_len <= content@.len(),
    ensures
        r@ == extract_context_spec(content@, index as int, query_len as int),
{
    let n = content.len();
    proof {
        assert(index + query_len <= n);
        lemma_para_start_bounds(content@, index as int);
        lemma_para_end_bounds(content@, index as int + query_len as int);
    }
    let ps = find_para_start(content, index);
    let pe = find_para_end(content, index + query_len);
    proof {
        assert(ps <= index && index + query_len <= pe);
    }
    let para = subvec(content, ps, pe);
    let matched = subvec(content, index, index + query_len);
    let segs = split_exec(&para);
    let ghost sv = seg_views(segs@);
    let lo: usize;
    let hi: usize;
    if segs.len() > 3 {
        let si = first_containing_exec(&segs, &matched);
        lo = if si >= 1 {
            si - 1
        } else {
            0
        };
        hi = if si >= segs.len() - 2 {
            segs.len()
        } else {
            si + 2
        };
        proof {
            assert(lo as int == narrow_lo(sv, matched@));
            assert(hi as int == narrow_hi(sv, matched@));
        }
    } else {
        lo = 0;
        hi = segs.len();
        proof {
            assert(lo as int == narrow_lo(sv, matched@));
            assert(hi as int == narrow_hi(sv, matched@));
        }
    }
    let joined = join_range(&segs, lo, hi);
    let mut r = trim_exec(&joined);
    r.push(46);
    proof {
        assert(r@ =~= trim(join_upto(sv, narrow_lo(sv, matched@), narrow_hi(sv, matched@)))
            + seq![46u8]);
        assert(r@ == preview_of_paragraph(para@, matched@));
    }
    r
}

} // verus!
