//! The search engine: candidate collection composed with per-file matching.
//!
//! A search takes a filesystem snapshot, collects the candidate files in
//! depth-first listing order, runs the matcher over each decodable file's
//! content, and flattens the per-match context previews into one result
//! list: files in collection order, matches within a file in ascending
//! start-offset order. A file whose content could not be decoded contributes
//! nothing. The result is a pure function of the snapshot and the
//! parameters, so two searches over the same snapshot with the same
//! parameters return the same results in the same order.

use vstd::prelude::*;
use crate::collect::FsDir;
use crate::collect::CandidateFile;
use crate::collect::cand_views;
use crate::collect::collect;
use crate::collect::collect_list;
use crate::context::extract_context;
use crate::context::extract_context_spec;
use crate::context::seg_views;
use crate::context::subvec;
use crate::matcher::as_ints;
use crate::matcher::find_positions;
use crate::matcher::match_positions;

verus! {

/// One match occurrence: the path of the file it was found in and a
/// human-readable context preview around it.
pub struct SearchResult {
    pub path: Vec<u8>,
    pub context_preview: Vec<u8>,
}

/// The mathematical value of a result list: a sequence of path/preview
/// pairs.
pub open spec fn result_views(s: Seq<SearchResult>) -> Seq<(Seq<u8>, Seq<u8>)> {
    s.map_values(|r: SearchResult| (r.path@, r.context_preview@))
}

/// The context previews of all matches of the query in one content, in
/// ascending match-offset order.
pub open spec fn file_contexts(
    content: Seq<u8>,
    query: Seq<u8>,
    case_sensitive: bool,
    match_word: bool,
) -> Seq<Seq<u8>> {
    match_positions(content, query, case_sensitive, match_word).map_values(
        |p: int| extract_context_spec(content, p, query.len() as int),
    )
}

/// The results one candidate file contributes: one per match when its
/// content decoded, nothing when it did not.
pub open spec fn file_results(
    path: Seq<u8>,
    content: Option<Seq<u8>>,
    query: Seq<u8>,
    case_sensitive: bool,
    match_word: bool,
) -> Seq<(Seq<u8>, Seq<u8>)> {
    match content {
        None => Seq::empty(),
        Some(c) => file_contexts(c, query, case_sensitive, match_word).map_values(
            |ctx: Seq<u8>| (path, ctx),
        ),
    }
}

/// The results of a list of candidate files, flattened in order.
pub open spec fn results_list(
    files: Seq<(Seq<u8>, Option<Seq<u8>>)>,
    query: Seq<u8>,
    case_sensitive: bool,
    match_word: bool,
) -> Seq<(Seq<u8>, Seq<u8>)>
    decreases files,
{
    if files.len() == 0 {
        Seq::empty()
    } else {
        file_results(files[0].0, files[0].1, query, case_sensitive, match_word) + results_list(
            files.drop_first(),
            query,
            case_sensitive,
            match_word,
        )
    }
}

/// Appending one candidate appends its contribution.
pub proof fn lemma_results_list_push(
    files: Seq<(Seq<u8>, Option<Seq<u8>>)>,
    f: (Seq<u8>, Option<Seq<u8>>),
    query: Seq<u8>,
    case_sensitive: bool,
    match_word: bool,
)
    ensures
        results_list(files.push(f), query, case_sensitive, match_word) == results_list(
            files,
            query,
            case_sensitive,
            match_word,
        ) + file_results(f.0, f.1, query, case_sensitive, match_word),
    decreases files,
{
    let pushed = files.push(f);
    if files.len() == 0 {
        assert(pushed[0] == f);
        assert(pushed.drop_first() =~= Seq::<(Seq<u8>, Option<Seq<u8>>)>::empty());
        assert(results_list(Seq::<(Seq<u8>, Option<Seq<u8>>)>::empty(), query, case_sensitive,
            match_word) == Seq::<(Seq<u8>, Seq<u8>)>::empty());
        assert(results_list(pushed, query, case_sensitive, match_word) =~= results_list(
            files,
            query,
            case_sensitive,
            match_word,
        ) + file_results(f.0, f.1, query, case_sensitive, match_word));
    } else {
        assert(pushed[0] == files[0]);
        assert(pushed.drop_first() =~= files.drop_first().push(f));
        lemma_results_list_push(files.drop_first(), f, query, case_sensitive, match_word);
        assert(results_list(pushed, query, case_sensitive, match_word) =~= results_list(
            files,
            query,
            case_sensitive,
            match_word,
        ) + file_results(f.0, f.1, query, case_sensitive, match_word));
    }
}

/// The full search over a snapshot directory whose own path is `root_path`:
/// the flattened results of all candidate files, with the requested
/// extension still carrying its leading dot.
pub open spec fn search_dir_spec(
    root: FsDir,
    root_path: Seq<u8>,
    query: Seq<u8>,
    case_sensitive: bool,
    recursive: bool,
    match_word: bool,
    extension: Seq<u8>,
) -> Seq<(Seq<u8>, Seq<u8>)> {
    results_list(
        collect_list(
            root.entries@,
            root_path,
            recursive,
            extension.subrange(1, extension.len() as int),
        ),
        query,
        case_sensitive,
        match_word,
    )
}

/// An optional flag, or its default.
pub open spec fn flag_or(o: Option<bool>, default: bool) -> bool {
    match o {
        Some(b) => b,
        None => default,
    }
}

/// The requested extension, or the default `.md`.
pub open spec fn ext_or_default(o: Option<&Vec<u8>>) -> Seq<u8> {
    match o {
        Some(e) => e@,
        None => seq![46u8, 109u8, 100u8],
    }
}

/// The ordering law: the result sequence of a search is a function of the
/// snapshot and the parameters alone, so two calls over the same snapshot
/// with the same parameters return the same results in the same order.
pub proof fn lemma_search_deterministic(
    r1: Seq<SearchResult>,
    r2: Seq<SearchResult>,
    root: FsDir,
    root_path: Seq<u8>,
    query: Seq<u8>,
    case_sensitive: bool,
    recursive: bool,
    match_word: bool,
    extension: Seq<u8>,
)
    requires
        result_views(r1) == search_dir_spec(
            root,
            root_path,
            query,
            case_sensitive,
            recursive,
            match_word,
            extension,
        ),
        result_views(r2) == search_dir_spec(
            root,
            root_path,
            query,
            case_sensitive,
            recursive,
            match_word,
            extension,
        ),
    ensures
        result_views(r1) == result_views(r2),
{
}

fn copy_bytes(v: &Vec<u8>) -> (r: Vec<u8>)
    ensures
        r@ == v@,
{
    let r = subvec(v, 0, v.len());
    proof {
        assert(v@.subrange(0, v@.len() as int) =~= v@);
    }
    r
}

/// The context previews of all matches of the query in the content, in
/// ascending match-offset order.
pub fn find_matches(
    content: &Vec<u8>,
    query: &Vec<u8>,
    case_sensitive: bool,
    match_word: bool,
) -> (r: Vec<Vec<u8>>)
    requires
        query@.len() > 0,
    ensures
        seg_views(r@) == file_contexts(content@, query@, case_sensitive, match_word),
{
    let positions = find_positions(content, query, case_sensitive, match_word);
    let ghost ctxs = file_contexts(content@, query@, case_sensitive, match_word);
    let mut out: Vec<Vec<u8>> = Vec::new();
    let mut k: usize = 0;
    proof {
        assert(seg_views(out@) =~= ctxs.subrange(0, 0));
    }
    while k < positions.len()
        invariant
            query@.len() > 0,
            0 <= k <= positions@.len(),
            as_ints(positions@) == match_positions(content@, query@, case_sensitive, match_word),
            forall|t: int|
                0 <= t < positions@.len() ==> #[trigger] positions@[t] + query@.len()
                    <= content@.len(),
            ctxs == file_contexts(content@, query@, case_sensitive, match_word),
            ctxs.len() == positions@.len(),
            seg_views(out@) == ctxs.subrange(0, k as int),
        decreases positions@.len() - k,
    {
        let p = positions[k];
        let ctx = extract_context(content, p, query.len());
        let ghost before = out@;
        out.push(ctx);
        proof {
            assert(as_ints(positions@)[k as int] == p as int);
            assert(ctxs[k as int] == extract_context_spec(
                content@,
                match_positions(content@, query@, case_sensitive, match_word)[k as int],
                query@.len() as int,
            ));
            assert(seg_views(out@) =~= seg_views(before).push(ctx@));
            assert(ctxs.subrange(0, k as int + 1) =~= ctxs.subrange(0, k as int).push(
                ctxs[k as int],
            ));
        }
        k += 1;
    }
    proof {
        assert(ctxs.subrange(0, positions@.len() as int) =~= ctxs);
    }
    out
}

/// The search entry point. Walks the snapshot rooted at `root` (whose own
/// path is `root_path`), collects the files whose extension matches, and
/// returns one result per match occurrence: files in depth-first listing
/// order, matches within a file by ascending start offset. A `None` root
/// stands for a path that is not a directory and yields no results, never
/// an error. Flags left unset default to a case-insensitive, recursive,
/// non-word search for files with the `.md` extension.
pub fn search_files(
    root: Option<&FsDir>,
    root_path: &Vec<u8>,
    query: &Vec<u8>,
    case_sensitive: Option<bool>,
    recursive: Option<bool>,
    match_word: Option<bool>,
    extension: Option<&Vec<u8>>,
) -> (r: Vec<SearchResult>)
    requires
        query@.len() > 0,
        match extension {
            Some(e) => e@.len() >= 1 && e@[0] == 46,
            None => true,
        },
    ensures
        match root {
            None => result_views(r@) == Seq::<(Seq<u8>, Seq<u8>)>::empty(),
            Some(d) => result_views(r@) == search_dir_spec(
                *d,
                root_path@,
                query@,
                flag_or(case_sensitive, false),
                flag_or(recursive, true),
                flag_or(match_word, false),
                ext_or_default(extension),
            ),
        },
{
    let cs = match case_sensitive {
        Some(b) => b,
        None => false,
    };
    let rec = match recursive {
        Some(b) => b,
        None => true,
    };
    let mw = match match_word {
        Some(b) => b,
        None => false,
    };
    let default_ext: Vec<u8> = vec![46u8, 109u8, 100u8];
    let ext: &Vec<u8> = match extension {
        Some(e) => e,
        None => &default_ext,
    };
    proof {
        assert(ext@ == ext_or_default(extension));
    }
    let mut results: Vec<SearchResult> = Vec::new();
    let dir: &FsDir = match root {
        Some(d) => d,
        None => {
            proof {
                assert(result_views(results@) =~= Seq::<(Seq<u8>, Seq<u8>)>::empty());
            }
            return results;
        },
    };
    let cands = collect(dir, root_path, rec, ext);
    let ghost cviews = cand_views(cands@);
    let mut i: usize = 0;
    proof {
        assert(result_views(results@) =~= results_list(cviews.subrange(0, 0), query@, cs, mw));
    }
    while i < cands.len()
        invariant
            query@.len() > 0,
            0 <= i <= cands@.len(),
            cviews == cand_views(cands@),
            cviews.len() == cands@.len(),
            result_views(results@) == results_list(cviews.subrange(0, i as int), query@, cs, mw),
        decreases cands@.len() - i,
    {
        let cand = &cands[i];
        proof {
            assert(cviews[i as int] == (cand.path@, crate::collect::opt_bytes(cand.content)));
        }
        match &cand.content {
            None => {
                proof {
                    assert(cviews.subrange(0, i as int + 1) =~= cviews.subrange(0, i as int).push(
                        cviews[i as int],
                    ));
                    lemma_results_list_push(
                        cviews.subrange(0, i as int),
                        cviews[i as int],
                        query@,
                        cs,
                        mw,
                    );
                    assert(file_results(cviews[i as int].0, cviews[i as int].1, query@, cs, mw)
                        == Seq::<(Seq<u8>, Seq<u8>)>::empty());
                    assert(result_views(results@) =~= results_list(
                        cviews.subrange(0, i as int + 1),
                        query@,
                        cs,
                        mw,
                    ));
                }
            },
            Some(content) => {
                let ctxs = find_matches(content, query, cs, mw);
                let ghost fr = file_results(cand.path@, Some(content@), query@, cs, mw);
                let mut j: usize = 0;
                let ghost outer = results@;
                proof {
                    assert(fr.subrange(0, 0) =~= Seq::<(Seq<u8>, Seq<u8>)>::empty());
                    assert(result_views(results@) =~= result_views(outer) + fr.subrange(0, 0));
                }
                while j < ctxs.len()
                    invariant
                        0 <= j <= ctxs@.len(),
                        seg_views(ctxs@) == file_contexts(content@, query@, cs, mw),
                        fr == file_results(cand.path@, Some(content@), query@, cs, mw),
                        fr.len() == ctxs@.len(),
                        result_views(results@) == result_views(outer) + fr.subrange(0, j as int),
                    decreases ctxs@.len() - j,
                {
                    let res = SearchResult {
                        path: copy_bytes(&cand.path),
                        context_preview: copy_bytes(&ctxs[j]),
                    };
                    let ghost before = results@;
                    results.push(res);
                    proof {
                        assert(seg_views(ctxs@)[j as int] == ctxs@[j as int]@);
                        assert(fr[j as int] == (cand.path@, seg_views(ctxs@)[j as int]));
                        assert(result_views(results@) =~= result_views(before).push(
                            (res.path@, res.context_preview@),
                        ));
                        assert(fr.subrange(0, j as int + 1) =~= fr.subrange(0, j as int).push(
                            fr[j as int],
                        ));
                        assert(result_views(results@) =~= result_views(outer) + fr.subrange(
                            0,
                            j as int + 1,
                        ));
                    }
                    j += 1;
                }
                proof {
                    assert(fr.subrange(0, fr.len() as int) =~= fr);
                    assert(cviews.subrange(0, i as int + 1) =~= cviews.subrange(0, i as int).push(
                        cviews[i as int],
                    ));
                    lemma_results_list_push(
                        cviews.subrange(0, i as int),
                        cviews[i as int],
                        query@,
                        cs,
                        mw,
                    );
                    assert(cviews[i as int].1 == Some(content@));
                    assert(file_results(cviews[i as int].0, cviews[i as int].1, query@, cs, mw)
                        == fr);
                    assert(result_views(results@) =~= results_list(
                        cviews.subrange(0, i as int + 1),
                        query@,
                        cs,
                        mw,
                    ));
                }
            },
        }
        i += 1;
    }
    proof {
        assert(cviews.subrange(0, cviews.len() as int) =~= cviews);
    }
    results
}

} // verus!
