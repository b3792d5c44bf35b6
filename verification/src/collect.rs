//! Candidate file collection over a filesystem snapshot.
//!
//! The engine never touches the filesystem itself: a caller lists the
//! directory tree once (in whatever order the platform yields entries,
//! classifying symbolic links as the platform does) and hands it over as an
//! `FsDir` snapshot. Names and paths are byte strings; path components are
//! joined with `/`. A file whose bytes could not be decoded as text carries
//! `None` as its content; a directory that could not be listed carries no
//! entries. Collection walks the snapshot depth-first in listing order,
//! descends into subdirectories only when `recursive` is set (a
//! subdirectory's files are interleaved at the position the subdirectory was
//! encountered), and keeps exactly the files whose name's extension — the
//! part after the last `.`, ignoring a leading `.` — equals, byte for byte,
//! the requested extension stripped of its leading dot.

use vstd::prelude::*;

verus! {

broadcast use vstd::std_specs::vec::group_vec_axioms;

/// A regular file in the snapshot: its name and its text content, or `None`
/// when the bytes could not be decoded as text.
pub struct FsFile {
    pub name: Vec<u8>,
    pub content: Option<Vec<u8>>,
}

/// A directory in the snapshot: its name and its entries in listing order
/// (empty when the directory could not be listed).
pub struct FsDir {
    pub name: Vec<u8>,
    pub entries: Vec<FsNode>,
}

/// One directory entry of the snapshot.
pub enum FsNode {
    File(FsFile),
    Dir(FsDir),
}

/// A file that passed the extension filter: its full path and its content
/// (`None` when the bytes could not be decoded as text).
pub struct CandidateFile {
    pub path: Vec<u8>,
    pub content: Option<Vec<u8>>,
}

/// The mathematical value of an optional byte vector.
pub open spec fn opt_bytes(c: Option<Vec<u8>>) -> Option<Seq<u8>> {
    match c {
        Some(v) => Some(v@),
        None => None,
    }
}

/// The mathematical value of a candidate list: a sequence of path/content
/// pairs.
pub open spec fn cand_views(s: Seq<CandidateFile>) -> Seq<(Seq<u8>, Option<Seq<u8>>)> {
    s.map_values(|c: CandidateFile| (c.path@, opt_bytes(c.content)))
}

/// The greatest index `>= 1` holding a dot (byte 46) at or below `i`, or -1
/// when there is none. A dot at index 0 marks a hidden file, not an
/// extension.
pub open spec fn last_dot(name: Seq<u8>, i: int) -> int
    decreases i,
{
    if i < 1 {
        -1
    } else if name[i] == 46 {
        i
    } else {
        last_dot(name, i - 1)
    }
}

/// The extension of a file name: the bytes after the last dot, where a dot
/// at the very start counts as part of a hidden file's name, not as an
/// extension separator. A name without such a dot has no extension.
pub open spec fn ext_of(name: Seq<u8>) -> Option<Seq<u8>> {
    let d = last_dot(name, name.len() - 1);
    if d >= 1 {
        Some(name.subrange(d + 1, name.len() as int))
    } else {
        None
    }
}

/// The file name's extension equals `ext`, byte for byte. A name without an
/// extension never matches.
pub open spec fn ext_matches(name: Seq<u8>, ext: Seq<u8>) -> bool {
    ext_of(name) == Some(ext)
}

/// `prefix` and `name` joined with a single `/` (none is added after an
/// empty prefix or one that already ends in `/`).
pub open spec fn join_path(prefix: Seq<u8>, name: Seq<u8>) -> Seq<u8> {
    if prefix.len() == 0 {
        name
    } else if prefix.last() == 47 {
        prefix + name
    } else {
        prefix + seq![47u8] + name
    }
}

/// The candidates contributed by one snapshot node under the given path
/// prefix: a matching file contributes itself; a directory contributes its
/// subtree when `recursive` is set and nothing otherwise.
pub open spec fn collect_node(
    node: FsNode,
    prefix: Seq<u8>,
    recursive: bool,
    ext: Seq<u8>,
) -> Seq<(Seq<u8>, Option<Seq<u8>>)>
    decreases node,
{
    match node {
        FsNode::File(f) => {
            if ext_matches(f.name@, ext) {
                seq![(join_path(prefix, f.name@), opt_bytes(f.content))]
            } else {
                Seq::empty()
            }
        },
        FsNode::Dir(d) => {
            if recursive {
                collect_list(d.entries@, join_path(prefix, d.name@), recursive, ext)
            } else {
                Seq::empty()
            }
        },
    }
}

/// The candidates contributed by a list of entries, in listing order,
/// depth-first.
pub open spec fn collect_list(
    entries: Seq<FsNode>,
    prefix: Seq<u8>,
    recursive: bool,
    ext: Seq<u8>,
) -> Seq<(Seq<u8>, Option<Seq<u8>>)>
    decreases entries,
{
    if entries.len() == 0 {
        Seq::empty()
    } else {
        collect_node(entries[0], prefix, recursive, ext) + collect_list(
            entries.drop_first(),
            prefix,
            recursive,
            ext,
        )
    }
}

/// The files the walk visits under one node, with no extension filter: each
/// as its full path, its bare name and its content, in the same depth-first
/// listing order that collection uses.
pub open spec fn visited_node(node: FsNode, prefix: Seq<u8>, recursive: bool) -> Seq<
    (Seq<u8>, Seq<u8>, Option<Seq<u8>>),
>
    decreases node,
{
    match node {
        FsNode::File(f) => seq![(join_path(prefix, f.name@), f.name@, opt_bytes(f.content))],
        FsNode::Dir(d) => {
            if recursive {
                visited_list(d.entries@, join_path(prefix, d.name@), recursive)
            } else {
                Seq::empty()
            }
        },
    }
}

/// The files the walk visits under a list of entries, with no extension
/// filter.
pub open spec fn visited_list(entries: Seq<FsNode>, prefix: Seq<u8>, recursive: bool) -> Seq<
    (Seq<u8>, Seq<u8>, Option<Seq<u8>>),
>
    decreases entries,
{
    if entries.len() == 0 {
        Seq::empty()
    } else {
        visited_node(entries[0], prefix, recursive) + visited_list(
            entries.drop_first(),
            prefix,
            recursive,
        )
    }
}

/// The visited files whose name's extension equals `ext`, each kept as its
/// path/content pair, in visiting order.
pub open spec fn filtered_files(
    visited: Seq<(Seq<u8>, Seq<u8>, Option<Seq<u8>>)>,
    ext: Seq<u8>,
) -> Seq<(Seq<u8>, Option<Seq<u8>>)>
    decreases visited,
{
    if visited.len() == 0 {
        Seq::empty()
    } else {
        let rest = filtered_files(visited.drop_first(), ext);
        if ext_matches(visited[0].1, ext) {
            seq![(visited[0].0, visited[0].2)] + rest
        } else {
            rest
        }
    }
}

/// Filtering distributes over concatenation.
pub proof fn lemma_filtered_files_add(
    a: Seq<(Seq<u8>, Seq<u8>, Option<Seq<u8>>)>,
    b: Seq<(Seq<u8>, Seq<u8>, Option<Seq<u8>>)>,
    ext: Seq<u8>,
)
    ensures
        filtered_files(a + b, ext) == filtered_files(a, ext) + filtered_files(b, ext),
    decreases a,
{
    if a.len() == 0 {
        assert(a + b =~= b);
        assert(filtered_files(a, ext) + filtered_files(b, ext) =~= filtered_files(b, ext));
    } else {
        assert((a + b)[0] == a[0]);
        assert((a + b).drop_first() =~= a.drop_first() + b);
        lemma_filtered_files_add(a.drop_first(), b, ext);
        assert(filtered_files(a + b, ext) =~= filtered_files(a, ext) + filtered_files(b, ext));
    }
}

/// The extension-filter law: the collected candidates are exactly the
/// visited regular files whose name's extension equals the requested one —
/// every collected file passed the filter, every visited file that passes it
/// is collected, and the visiting order is kept.
pub proof fn lemma_extension_filter(
    entries: Seq<FsNode>,
    prefix: Seq<u8>,
    recursive: bool,
    ext: Seq<u8>,
)
    ensures
        collect_list(entries, prefix, recursive, ext) == filtered_files(
            visited_list(entries, prefix, recursive),
            ext,
        ),
    decreases entries, 1nat,
{
    if entries.len() == 0 {
    } else {
        lemma_extension_filter_node(entries[0], prefix, recursive, ext);
        lemma_extension_filter(entries.drop_first(), prefix, recursive, ext);
        lemma_filtered_files_add(
            visited_node(entries[0], prefix, recursive),
            visited_list(entries.drop_first(), prefix, recursive),
            ext,
        );
    }
}

/// The extension-filter law for a single node.
pub proof fn lemma_extension_filter_node(
    node: FsNode,
    prefix: Seq<u8>,
    recursive: bool,
    ext: Seq<u8>,
)
    ensures
        collect_node(node, prefix, recursive, ext) == filtered_files(
            visited_node(node, prefix, recursive),
            ext,
        ),
    decreases node, 0nat,
{
    match node {
        FsNode::File(f) => {
            let v = visited_node(node, prefix, recursive);
            assert(v == seq![(join_path(prefix, f.name@), f.name@, opt_bytes(f.content))]);
            assert(v[0] == (join_path(prefix, f.name@), f.name@, opt_bytes(f.content)));
            assert(v.drop_first() =~= Seq::<(Seq<u8>, Seq<u8>, Option<Seq<u8>>)>::empty());
            assert(filtered_files(Seq::<(Seq<u8>, Seq<u8>, Option<Seq<u8>>)>::empty(), ext)
                == Seq::<(Seq<u8>, Option<Seq<u8>>)>::empty());
            if ext_matches(f.name@, ext) {
                assert(filtered_files(v, ext) == seq![(v[0].0, v[0].2)] + Seq::<(
                    Seq<u8>,
                    Option<Seq<u8>>,
                )>::empty());
                assert(collect_node(node, prefix, recursive, ext) =~= filtered_files(v, ext));
            } else {
                assert(filtered_files(v, ext) == Seq::<(Seq<u8>, Option<Seq<u8>>)>::empty());
                assert(collect_node(node, prefix, recursive, ext) =~= filtered_files(v, ext));
            }
        },
        FsNode::Dir(d) => {
            if recursive {
                lemma_extension_filter(d.entries@, join_path(prefix, d.name@), recursive, ext);
            }
        },
    }
}

/// The direct child files of a list of entries, as path/name/content
/// triples, in listing order.
pub open spec fn direct_files(entries: Seq<FsNode>, prefix: Seq<u8>) -> Seq<
    (Seq<u8>, Seq<u8>, Option<Seq<u8>>),
>
    decreases entries,
{
    if entries.len() == 0 {
        Seq::empty()
    } else {
        let rest = direct_files(entries.drop_first(), prefix);
        match entries[0] {
            FsNode::File(f) => seq![(join_path(prefix, f.name@), f.name@, opt_bytes(f.content))]
                + rest,
            FsNode::Dir(_) => rest,
        }
    }
}

/// The recursion-gate law: with recursion switched off the walk visits
/// exactly the direct child files — nothing inside any subdirectory — so the
/// collected candidates are exactly the direct child files that pass the
/// extension filter.
pub proof fn lemma_recursion_gate(entries: Seq<FsNode>, prefix: Seq<u8>, ext: Seq<u8>)
    ensures
        visited_list(entries, prefix, false) == direct_files(entries, prefix),
        collect_list(entries, prefix, false, ext) == filtered_files(
            direct_files(entries, prefix),
            ext,
        ),
    decreases entries,
{
    if entries.len() == 0 {
    } else {
        lemma_recursion_gate(entries.drop_first(), prefix, ext);
        assert(visited_list(entries, prefix, false) == visited_node(entries[0], prefix, false)
            + visited_list(entries.drop_first(), prefix, false));
        match entries[0] {
            FsNode::File(f) => {
                assert(visited_node(entries[0], prefix, false) == seq![(
                    join_path(prefix, f.name@),
                    f.name@,
                    opt_bytes(f.content),
                )]);
                assert(visited_list(entries, prefix, false) =~= direct_files(entries, prefix));
            },
            FsNode::Dir(d) => {
                assert(visited_node(entries[0], prefix, false) == Seq::<(
                    Seq<u8>,
                    Seq<u8>,
                    Option<Seq<u8>>,
                )>::empty());
                assert(direct_files(entries, prefix) == direct_files(
                    entries.drop_first(),
                    prefix,
                ));
                assert(visited_list(entries, prefix, false) =~= direct_files(entries, prefix));
            },
        }
    }
    lemma_extension_filter(entries, prefix, false, ext);
}

/// Appending one entry appends its contribution.
pub proof fn lemma_collect_list_push(
    entries: Seq<FsNode>,
    node: FsNode,
    prefix: Seq<u8>,
    recursive: bool,
    ext: Seq<u8>,
)
    ensures
        collect_list(entries.push(node), prefix, recursive, ext) == collect_list(
            entries,
            prefix,
            recursive,
            ext,
        ) + collect_node(node, prefix, recursive, ext),
    decreases entries,
{
    let pushed = entries.push(node);
    if entries.len() == 0 {
        assert(pushed[0] == node);
        assert(pushed.drop_first() =~= Seq::<FsNode>::empty());
        assert(collect_list(Seq::<FsNode>::empty(), prefix, recursive, ext) == Seq::<(
            Seq<u8>,
            Option<Seq<u8>>,
        )>::empty());
        assert(collect_list(pushed, prefix, recursive, ext) == collect_node(
            node,
            prefix,
            recursive,
            ext,
        ) + Seq::<(Seq<u8>, Option<Seq<u8>>)>::empty());
        assert(collect_list(pushed, prefix, recursive, ext) =~= collect_list(
            entries,
            prefix,
            recursive,
            ext,
        ) + collect_node(node, prefix, recursive, ext));
    } else {
        assert(pushed[0] == entries[0]);
        assert(pushed.drop_first() =~= entries.drop_first().push(node));
        lemma_collect_list_push(entries.drop_first(), node, prefix, recursive, ext);
        assert(collect_list(pushed, prefix, recursive, ext) == collect_node(
            entries[0],
            prefix,
            recursive,
            ext,
        ) + (collect_list(entries.drop_first(), prefix, recursive, ext) + collect_node(
            node,
            prefix,
            recursive,
            ext,
        )));
        assert(collect_list(pushed, prefix, recursive, ext) =~= collect_list(
            entries,
            prefix,
            recursive,
            ext,
        ) + collect_node(node, prefix, recursive, ext));
    }
}

fn find_last_dot(name: &Vec<u8>) -> (r: Option<usize>)
    ensures
        match r {
            Some(d) => last_dot(name@, name@.len() - 1) == d as int && 1 <= d < name@.len(),
            None => last_dot(name@, name@.len() - 1) == -1,
        },
{
    let mut j: usize = name.len();
    while j > 1
        invariant
            0 <= j <= name@.len(),
            last_dot(name@, name@.len() - 1) == last_dot(name@, j as int - 1),
        decreases j,
    {
        if name[j - 1] == 46 {
            proof {
                assert(last_dot(name@, j as int - 1) == j - 1);
            }
            return Some(j - 1);
        }
        proof {
            assert(last_dot(name@, j as int - 1) == last_dot(name@, j as int - 2));
        }
        j -= 1;
    }
    proof {
        assert(last_dot(name@, j as int - 1) == -1);
    }
    None
}

/// Does the file name's extension equal `ext` (given without its leading
/// dot), byte for byte?
pub fn ext_matches_exec(name: &Vec<u8>, ext: &Vec<u8>) -> (r: bool)
    ensures
        r == ext_matches(name@, ext@),
{
    let dot: usize;
    match find_last_dot(name) {
        Some(d) => {
            dot = d;
        },
        None => {
            proof {
                assert(ext_of(name@) is None);
            }
            return false;
        },
    }
    // compare name[dot + 1 ..] with ext
    if name.len() - dot - 1 != ext.len() {
        proof {
            let e = name@.subrange(dot as int + 1, name@.len() as int);
            assert(ext_of(name@) == Some(e));
            assert(e.len() != ext@.len());
        }
        return false;
    }
    let mut k: usize = 0;
    while k < ext.len()
        invariant
            1 <= dot < name@.len(),
            last_dot(name@, name@.len() - 1) == dot as int,
            name@.len() <= usize::MAX,
            name@.len() - dot - 1 == ext@.len(),
            0 <= k <= ext@.len(),
            forall|t: int| 0 <= t < k ==> name@[dot + 1 + t] == ext@[t],
        decreases ext@.len() - k,
    {
        if name[dot + 1 + k] != ext[k] {
            proof {
                let e = name@.subrange(dot as int + 1, name@.len() as int);
                assert(ext_of(name@) == Some(e));
                assert(e[k as int] == name@[dot + 1 + k]);
                assert(e != ext@);
            }
            return false;
        }
        k += 1;
    }
    proof {
        let e = name@.subrange(dot as int + 1, name@.len() as int);
        assert(ext_of(name@) == Some(e));
        assert(e =~= ext@);
    }
    true
}

/// `prefix` and `name` joined with a single `/`, as a fresh vector.
pub fn join_path_exec(prefix: &Vec<u8>, name: &Vec<u8>) -> (r: Vec<u8>)
    ensures
        r@ == join_path(prefix@, name@),
{
    let mut r: Vec<u8> = Vec::new();
    let mut k: usize = 0;
    while k < prefix.len()
        invariant
            0 <= k <= prefix@.len(),
            r@ == prefix@.subrange(0, k as int),
        decreases prefix@.len() - k,
    {
        r.push(prefix[k]);
        proof {
            assert(prefix@.subrange(0, k as int + 1) =~= prefix@.subrange(0, k as int).push(
                prefix@[k as int],
            ));
        }
        k += 1;
    }
    proof {
        assert(prefix@.subrange(0, prefix@.len() as int) =~= prefix@);
    }
    if prefix.len() > 0 && prefix[prefix.len() - 1] != 47 {
        r.push(47);
    }
    let mut t: usize = 0;
    let ghost base = r@;
    while t < name.len()
        invariant
            0 <= t <= name@.len(),
            r@ == base + name@.subrange(0, t as int),
        decreases name@.len() - t,
    {
        proof {
            assert(base + name@.subrange(0, t as int + 1) =~= (base + name@.subrange(
                0,
                t as int,
            )).push(name@[t as int]));
        }
        r.push(name[t]);
        t += 1;
    }
    proof {
        assert(base + name@.subrange(0, name@.len() as int) =~= base + name@);
        if prefix@.len() == 0 {
            assert(r@ =~= name@);
        } else if prefix@.last() == 47 {
            assert(r@ =~= prefix@ + name@);
        } else {
            assert(r@ =~= prefix@ + seq![47u8] + name@);
        }
    }
    r
}

fn copy_bytes(v: &Vec<u8>) -> (r: Vec<u8>)
    ensures
        r@ == v@,
{
    let mut r: Vec<u8> = Vec::new();
    let mut k: usize = 0;
    while k < v.len()
        invariant
            0 <= k <= v@.len(),
            r@ == v@.subrange(0, k as int),
        decreases v@.len() - k,
    {
        r.push(v[k]);
        proof {
            assert(v@.subrange(0, k as int + 1) =~= v@.subrange(0, k as int).push(v@[k as int]));
        }
        k += 1;
    }
    proof {
        assert(v@.subrange(0, v@.len() as int) =~= v@);
    }
    r
}

fn copy_content(c: &Option<Vec<u8>>) -> (r: Option<Vec<u8>>)
    ensures
        opt_bytes(r) == opt_bytes(*c),
{
    match c {
        Some(v) => Some(copy_bytes(v)),
        None => None,
    }
}

fn collect_node_into(
    node: &FsNode,
    prefix: &Vec<u8>,
    recursive: bool,
    ext: &Vec<u8>,
    out: &mut Vec<CandidateFile>,
)
    ensures
        cand_views(final(out)@) == cand_views(old(out)@) + collect_node(
            *node,
            prefix@,
            recursive,
            ext@,
        ),
    decreases *node,
{
    match node {
        FsNode::File(f) => {
            if ext_matches_exec(&f.name, ext) {
                let ghost before = out@;
                let cand = CandidateFile {
                    path: join_path_exec(prefix, &f.name),
                    content: copy_content(&f.content),
                };
                out.push(cand);
                proof {
                    assert(cand_views(out@) =~= cand_views(before) + collect_node(
                        *node,
                        prefix@,
                        recursive,
                        ext@,
                    ));
                }
            } else {
                proof {
                    assert(cand_views(out@) =~= cand_views(out@) + collect_node(
                        *node,
                        prefix@,
                        recursive,
                        ext@,
                    ));
                }
            }
        },
        FsNode::Dir(d) => {
            if recursive {
                let child_prefix = join_path_exec(prefix, &d.name);
                let ghost before = out@;
                let mut i: usize = 0;
                proof {
                    assert(d.entries@.subrange(0, 0) =~= Seq::<FsNode>::empty());
                    assert(cand_views(before) + collect_list(
                        d.entries@.subrange(0, 0),
                        child_prefix@,
                        recursive,
                        ext@,
                    ) =~= cand_views(before));
                }
                while i < d.entries.len()
                    invariant
                        *node == FsNode::Dir(*d),
                        0 <= i <= d.entries@.len(),
                        child_prefix@ == join_path(prefix@, d.name@),
                        cand_views(out@) == cand_views(before) + collect_list(
                            d.entries@.subrange(0, i as int),
                            child_prefix@,
                            recursive,
                            ext@,
                        ),
                    decreases d.entries@.len() - i,
                {
                    proof {
                        assert(decreases_to!(*node => node->Dir_0));
                        assert(node->Dir_0 == *d);
                        assert(decreases_to!(*d => d.entries));
                        assert(decreases_to!(d.entries => d.entries@));
                        assert(decreases_to!(d.entries@ => d.entries@[i as int]));
                        assert(decreases_to!(*node => d.entries@[i as int]));
                    }
                    collect_node_into(&d.entries[i], &child_prefix, recursive, ext, out);
                    proof {
                        assert(d.entries@.subrange(0, i as int + 1) =~= d.entries@.subrange(
                            0,
                            i as int,
                        ).push(d.entries@[i as int]));
                        lemma_collect_list_push(
                            d.entries@.subrange(0, i as int),
                            d.entries@[i as int],
                            child_prefix@,
                            recursive,
                            ext@,
                        );
                        assert(cand_views(out@) =~= cand_views(before) + collect_list(
                            d.entries@.subrange(0, i as int + 1),
                            child_prefix@,
                            recursive,
                            ext@,
                        ));
                    }
                    i += 1;
                }
                proof {
                    assert(d.entries@.subrange(0, d.entries@.len() as int) =~= d.entries@);
                }
            } else {
                proof {
                    assert(cand_views(out@) =~= cand_views(out@) + collect_node(
                        *node,
                        prefix@,
                        recursive,
                        ext@,
                    ));
                }
            }
        },
    }
}

/// The candidate files of the snapshot rooted at `root`, whose own path is
/// `root_path`: the regular files, in depth-first listing order (direct
/// children only unless `recursive` is set), whose name's extension equals
/// `extension` stripped of its leading dot.
pub fn collect(root: &FsDir, root_path: &Vec<u8>, recursive: bool, extension: &Vec<u8>) -> (r: Vec<
    CandidateFile,
>)
    requires
        extension@.len() >= 1,
        extension@[0] == 46,
    ensures
        cand_views(r@) == collect_list(
            root.entries@,
            root_path@,
            recursive,
            extension@.subrange(1, extension@.len() as int),
        ),
{
    let ext = crate::context::subvec(extension, 1, extension.len());
    let mut out: Vec<CandidateFile> = Vec::new();
    let ghost e = extension@.subrange(1, extension@.len() as int);
    proof {
        assert(root.entries@.subrange(0, 0) =~= Seq::<FsNode>::empty());
        assert(cand_views(out@) + collect_list(root.entries@.subrange(0, 0), root_path@, recursive, e)
            =~= cand_views(out@));
    }
    let mut i: usize = 0;
    while i < root.entries.len()
        invariant
            0 <= i <= root.entries@.len(),
            ext@ == e,
            cand_views(out@) == collect_list(
                root.entries@.subrange(0, i as int),
                root_path@,
                recursive,
                e,
            ),
        decreases root.entries@.len() - i,
    {
        collect_node_into(&root.entries[i], root_path, recursive, &ext, &mut out);
        proof {
            assert(root.entries@.subrange(0, i as int + 1) =~= root.entries@.subrange(
                0,
                i as int,
            ).push(root.entries@[i as int]));
            lemma_collect_list_push(
                root.entries@.subrange(0, i as int),
                root.entries@[i as int],
                root_path@,
                recursive,
                e,
            );
        }
        i += 1;
    }
    proof {
        assert(root.entries@.subrange(0, root.entries@.len() as int) =~= root.entries@);
    }
    out
}

} // verus!
