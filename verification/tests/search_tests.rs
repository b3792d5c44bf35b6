use docsearch::collect::collect;
use docsearch::collect::FsDir;
use docsearch::collect::FsFile;
use docsearch::collect::FsNode;
use docsearch::context::extract_context;
use docsearch::engine::find_matches;
use docsearch::engine::search_files;
use docsearch::matcher::find_positions;

fn file(name: &str, content: &str) -> FsNode {
    FsNode::File(FsFile {
        name: name.as_bytes().to_vec(),
        content: Some(content.as_bytes().to_vec()),
    })
}

fn undecodable(name: &str) -> FsNode {
    FsNode::File(FsFile {
        name: name.as_bytes().to_vec(),
        content: None,
    })
}

fn dir(name: &str, entries: Vec<FsNode>) -> FsNode {
    FsNode::Dir(FsDir {
        name: name.as_bytes().to_vec(),
        entries,
    })
}

fn root(entries: Vec<FsNode>) -> FsDir {
    FsDir {
        name: b"root".to_vec(),
        entries,
    }
}

fn positions(content: &str, query: &str, case_sensitive: bool, match_word: bool) -> Vec<usize> {
    find_positions(
        &content.as_bytes().to_vec(),
        &query.as_bytes().to_vec(),
        case_sensitive,
        match_word,
    )
}

fn matches(content: &str, query: &str, case_sensitive: bool, match_word: bool) -> Vec<Vec<u8>> {
    find_matches(
        &content.as_bytes().to_vec(),
        &query.as_bytes().to_vec(),
        case_sensitive,
        match_word,
    )
}

#[test]
fn extension_filter_exactness() {
    // Only regular files whose extension (after the last dot, a leading dot
    // never counting) equals the requested one, compared case-sensitively.
    let snapshot = root(vec![
        file("a.md", "x"),
        file("b.txt", "x"),
        file("e.MD", "x"),
        file("noext", "x"),
        file(".md", "x"),
        file("c.tar.md", "x"),
    ]);
    let cands = collect(&snapshot, &b"root".to_vec(), true, &b".md".to_vec());
    let paths: Vec<Vec<u8>> = cands.iter().map(|c| c.path.clone()).collect();
    assert_eq!(paths, vec![b"root/a.md".to_vec(), b"root/c.tar.md".to_vec()]);
}

#[test]
fn recursion_gate() {
    let snapshot = root(vec![
        file("a.md", "x"),
        dir("sub", vec![file("b.md", "x"), dir("deep", vec![file("c.md", "x")])]),
        file("d.md", "x"),
    ]);
    let all = collect(&snapshot, &b"root".to_vec(), true, &b".md".to_vec());
    let all_paths: Vec<Vec<u8>> = all.iter().map(|c| c.path.clone()).collect();
    assert_eq!(
        all_paths,
        vec![
            b"root/a.md".to_vec(),
            b"root/sub/b.md".to_vec(),
            b"root/sub/deep/c.md".to_vec(),
            b"root/d.md".to_vec(),
        ]
    );

    let flat = collect(&snapshot, &b"root".to_vec(), false, &b".md".to_vec());
    let flat_paths: Vec<Vec<u8>> = flat.iter().map(|c| c.path.clone()).collect();
    assert_eq!(flat_paths, vec![b"root/a.md".to_vec(), b"root/d.md".to_vec()]);
}

#[test]
fn case_sensitivity() {
    assert_eq!(positions("foo", "Foo", true, false), Vec::<usize>::new());
    assert_eq!(positions("foo", "Foo", false, false), vec![0]);
}

#[test]
fn whole_word() {
    let content = "concatenate cat catalog";
    assert_eq!(positions(content, "cat", false, false), vec![3, 12, 16]);
    assert_eq!(positions(content, "cat", false, true), vec![12]);
}

#[test]
fn non_overlapping_matches() {
    assert_eq!(positions("aaaa", "aa", true, false), vec![0, 2]);
    assert_eq!(positions("AAAA", "aa", false, false), vec![0, 2]);
}

#[test]
fn empty_content_and_short_content() {
    assert_eq!(positions("", "cat", false, false), Vec::<usize>::new());
    assert_eq!(positions("ca", "cat", false, false), Vec::<usize>::new());
}

#[test]
fn word_boundary_at_content_edges() {
    assert_eq!(positions("cat", "cat", true, true), vec![0]);
    assert_eq!(positions("cat cat", "cat", true, true), vec![0, 4]);
}

#[test]
fn query_is_literal_text() {
    // Pattern metacharacters in the query have no special meaning.
    assert_eq!(positions("a.b c axb", "a.b", true, false), vec![0]);
    assert_eq!(positions("one (two) three", "(two)", true, false), vec![4]);
}

#[test]
fn sentence_window_five_sentences() {
    // Five sentences, the match in the third: the preview holds exactly the
    // second, third and fourth, rejoined with ". " (the segments keep their
    // leading spaces, hence the double spaces).
    let content = "One fish. Two fish. Red cat here. Blue fish. Green fish.";
    let ctxs = matches(content, "cat", false, false);
    assert_eq!(ctxs, vec![b"Two fish.  Red cat here.  Blue fish.".to_vec()]);
}

#[test]
fn sentence_window_two_sentences_whole_paragraph() {
    // Two sentences only: the whole paragraph is kept, and the unconditional
    // trailing period lands after the paragraph's own final period.
    let content = "Cats sleep. Dogs bark.";
    let ctxs = matches(content, "sleep", false, false);
    assert_eq!(ctxs, vec![b"Cats sleep.  Dogs bark..".to_vec()]);
}

#[test]
fn adjacent_matches_each_get_a_window() {
    // Every occurrence contributes its own preview; equal windows are not
    // deduplicated.
    let ctxs = matches("cat cat", "cat", true, false);
    assert_eq!(ctxs, vec![b"cat cat.".to_vec(), b"cat cat.".to_vec()]);
}

#[test]
fn no_cross_paragraph_bleed() {
    let content = "alpha beta\n\ngamma delta\n\nepsilon";
    let ctxs = matches(content, "gamma", false, false);
    assert_eq!(ctxs, vec![b"gamma delta.".to_vec()]);
    // A match ending right at the paragraph boundary stays inside it too.
    let ctxs = matches(content, "delta", false, false);
    assert_eq!(ctxs, vec![b"gamma delta.".to_vec()]);
}

#[test]
fn extract_context_window_bounds() {
    let content = b"first one\n\nsecond part here\n\nthird one".to_vec();
    // "second" starts at offset 11.
    let preview = extract_context(&content, 11, 6);
    assert_eq!(preview, b"second part here.".to_vec());
}

#[test]
fn preview_is_trimmed_of_whitespace() {
    let ctxs = matches("   cat   ", "cat", true, false);
    assert_eq!(ctxs, vec![b"cat.".to_vec()]);
}

#[test]
fn consecutive_delimiters_make_empty_segments() {
    // "a!!b. c. d. e" splits into six segments, one of them empty; the
    // window around "b" keeps the empty segment before it, and the ". "
    // separators land in the preview verbatim (periods are not whitespace,
    // so the leading one survives the trim).
    let ctxs = matches("a!!b. c. d. e", "b", true, false);
    assert_eq!(ctxs, vec![b". b.  c.".to_vec()]);
}

#[test]
fn ordering_deterministic() {
    let snapshot = root(vec![
        file("a.md", "cat one. cat two"),
        dir("sub", vec![file("b.md", "a cat sleeps")]),
    ]);
    let q = b"cat".to_vec();
    let p = b"root".to_vec();
    let r1 = search_files(Some(&snapshot), &p, &q, None, None, None, None);
    let r2 = search_files(Some(&snapshot), &p, &q, None, None, None, None);
    assert_eq!(r1.len(), 3);
    assert_eq!(r1.len(), r2.len());
    for (a, b) in r1.iter().zip(r2.iter()) {
        assert_eq!(a.path, b.path);
        assert_eq!(a.context_preview, b.context_preview);
    }
    // Files come in listing order, matches within a file by ascending offset.
    assert_eq!(r1[0].path, b"root/a.md".to_vec());
    assert_eq!(r1[1].path, b"root/a.md".to_vec());
    assert_eq!(r1[2].path, b"root/sub/b.md".to_vec());
}

#[test]
fn search_scenario_two_files() {
    // a.md matches twice (case-insensitively); b.txt is excluded by the
    // extension filter. Both previews come out identical: the window is
    // anchored at the first segment that contains the matched text "Cats",
    // which is the first sentence for both occurrences.
    let snapshot = root(vec![
        file(
            "a.md",
            "Cats are great. Dogs are fine. Cats sleep a lot. Birds fly. Fish swim.",
        ),
        file("b.txt", "cats everywhere"),
    ]);
    let results = search_files(
        Some(&snapshot),
        &b"root".to_vec(),
        &b"cats".to_vec(),
        None,
        None,
        None,
        None,
    );
    assert_eq!(results.len(), 2);
    assert_eq!(results[0].path, b"root/a.md".to_vec());
    assert_eq!(results[1].path, b"root/a.md".to_vec());
    assert_eq!(
        results[0].context_preview,
        b"Cats are great.  Dogs are fine.".to_vec()
    );
    assert_eq!(
        results[1].context_preview,
        b"Cats are great.  Dogs are fine.".to_vec()
    );
}

#[test]
fn search_none_root_is_empty() {
    let results = search_files(
        None,
        &b"missing".to_vec(),
        &b"cat".to_vec(),
        None,
        None,
        None,
        None,
    );
    assert_eq!(results.len(), 0);
}

#[test]
fn undecodable_file_contributes_nothing() {
    let snapshot = root(vec![undecodable("bin.md"), file("ok.md", "a cat")]);
    let results = search_files(
        Some(&snapshot),
        &b"root".to_vec(),
        &b"cat".to_vec(),
        None,
        None,
        None,
        None,
    );
    assert_eq!(results.len(), 1);
    assert_eq!(results[0].path, b"root/ok.md".to_vec());
}

#[test]
fn unlistable_directory_contributes_nothing() {
    // A directory that could not be listed appears with no entries.
    let snapshot = root(vec![dir("locked", vec![]), file("ok.md", "a cat")]);
    let results = search_files(
        Some(&snapshot),
        &b"root".to_vec(),
        &b"cat".to_vec(),
        None,
        None,
        None,
        None,
    );
    assert_eq!(results.len(), 1);
}

#[test]
fn custom_extension_and_flags() {
    let snapshot = root(vec![file("notes.txt", "The Word word wording")]);
    let results = search_files(
        Some(&snapshot),
        &b"root".to_vec(),
        &b"word".to_vec(),
        Some(true),
        Some(false),
        Some(true),
        Some(&b".txt".to_vec()),
    );
    // Case-sensitive whole-word: only the standalone lower-case "word".
    assert_eq!(results.len(), 1);
    assert_eq!(results[0].path, b"root/notes.txt".to_vec());
    assert_eq!(results[0].context_preview, b"The Word word wording.".to_vec());
}
