use vstd::prelude::*;

use crate::error::{Error, ErrorKind};
use crate::language::{lemma_class_decl_nonempty, lemma_package_decl_nonempty, Language};
use crate::name::{
    dotted_wf, lemma_dotted_wf_nonempty, lemma_join_split, segs_view, split_dots, QualifiedName,
};
use crate::rewrite::{rewrite_occurrences, rewritten};
use crate::tree::{
    clone_path, in_language_tree, is_prefix, is_strict_prefix, path_concat, path_eq,
    path_in_language_tree, path_is_prefix, path_skip, path_take, source_root, source_root_spec,
    SourceFile, SourceTree,
};

verus! {

/// The directory of a package: the language source root followed by one
/// segment per package segment.
pub open spec fn package_dir(lang: Language, name: Seq<char>) -> Seq<Seq<char>> {
    source_root_spec(lang) + split_dots(name)
}

/// Where a path ends up when the subtree at `od` moves to `nd`: a path
/// under `od` is re-rooted at `nd`, any other path stays.
pub open spec fn moved_path(p: Seq<Seq<char>>, od: Seq<Seq<char>>, nd: Seq<Seq<char>>) -> Seq<
    Seq<char>,
> {
    if is_prefix(od, p) {
        nd + p.skip(od.len() as int)
    } else {
        p
    }
}

/// A file's content after a package rename: a moved file first has its
/// declaration line substituted (old template to new template), then, like
/// every file under a language source root, its whole-token references to
/// the old package rewritten to the new one.  Files outside the language
/// subtrees are untouched.
pub open spec fn package_new_content(
    p: Seq<Seq<char>>,
    c: Seq<char>,
    lang: Language,
    od: Seq<Seq<char>>,
    old: Seq<char>,
    new: Seq<char>,
) -> Seq<char> {
    if is_prefix(od, p) {
        rewritten(
            rewritten(c, lang.package_decl_spec(old), lang.package_decl_spec(new)),
            old,
            new,
        )
    } else if in_language_tree(p) {
        rewritten(c, old, new)
    } else {
        c
    }
}

/// A directory present after the move and the creation of missing
/// intermediate directories, before empty ancestors are cleaned up: the
/// image of an existing directory under the move, or a missing ancestor of
/// the new package directory.
pub open spec fn pre_cleanup_has_dir(
    t: SourceTree,
    d: Seq<Seq<char>>,
    od: Seq<Seq<char>>,
    nd: Seq<Seq<char>>,
) -> bool {
    ||| exists|i: int|
        0 <= i < t.dirs@.len() && moved_path(segs_view(#[trigger] t.dirs@[i]@), od, nd) == d
    ||| (is_strict_prefix(d, nd) && d.len() >= 1)
}

/// An ancestor of the old package directory strictly below it and strictly
/// below the language source root: the candidates for empty-directory
/// cleanup.
pub open spec fn is_chain_dir(d: Seq<Seq<char>>, od: Seq<Seq<char>>, lang: Language) -> bool {
    is_strict_prefix(d, od) && d.len() > source_root_spec(lang).len()
}

/// After the move, something other than a cleanup candidate still lies
/// strictly under `d`: a (moved) file, or a directory that is not itself an
/// ancestor of the old package directory.
pub open spec fn survivor_under(
    t: SourceTree,
    d: Seq<Seq<char>>,
    od: Seq<Seq<char>>,
    nd: Seq<Seq<char>>,
) -> bool {
    ||| exists|i: int|
        0 <= i < t.files@.len() && is_strict_prefix(
            d,
            moved_path(#[trigger] t.files@[i].path_view(), od, nd),
        )
    ||| exists|d2: Seq<Seq<char>>|
        #[trigger] pre_cleanup_has_dir(t, d2, od, nd) && is_strict_prefix(d, d2)
            && !is_strict_prefix(d2, od)
}

/// A directory survives the cleanup of empty ancestors unless it is an
/// ancestor of the old package directory with nothing left under it.
pub open spec fn cleanup_keeps(
    t: SourceTree,
    d: Seq<Seq<char>>,
    lang: Language,
    od: Seq<Seq<char>>,
    nd: Seq<Seq<char>>,
) -> bool {
    !is_chain_dir(d, od, lang) || survivor_under(t, d, od, nd)
}

/// What a successful package rename does to the tree: every file under the
/// old package directory moves with it and is rewritten, every other file
/// under a language source root has its references rewritten, and the
/// directories are the moved directories plus the new package's missing
/// ancestors, minus the old package's emptied ancestors.
pub open spec fn package_renamed(
    t: SourceTree,
    t2: SourceTree,
    lang: Language,
    old: Seq<char>,
    new: Seq<char>,
) -> bool {
    let od = package_dir(lang, old);
    let nd = package_dir(lang, new);
    &&& t2.files@.len() == t.files@.len()
    &&& forall|i: int|
        0 <= i < t.files@.len() ==> (#[trigger] t2.files@[i]).path_view() == moved_path(
            t.files@[i].path_view(),
            od,
            nd,
        )
    &&& forall|i: int|
        0 <= i < t.files@.len() ==> (#[trigger] t2.files@[i]).content@ == package_new_content(
            t.files@[i].path_view(),
            t.files@[i].content@,
            lang,
            od,
            old,
            new,
        )
    &&& forall|d: Seq<Seq<char>>|
        #![trigger t2.has_dir(d)]
        #![trigger pre_cleanup_has_dir(t, d, od, nd)]
        t2.has_dir(d) <==> (pre_cleanup_has_dir(t, d, od, nd) && cleanup_keeps(t, d, lang, od, nd))
}

/// The target of a package move collides with the existing tree: the new
/// directory already exists, or it lies inside the moved subtree, or a
/// file stands where the new directory or one of its ancestors must go.
pub open spec fn package_conflict(t: SourceTree, od: Seq<Seq<char>>, nd: Seq<Seq<char>>) -> bool {
    ||| t.has_dir(nd)
    ||| is_prefix(od, nd)
    ||| exists|k: int| 1 <= k <= nd.len() && t.has_file(#[trigger] nd.subrange(0, k))
}

/// The survivor check over the concrete vectors the implementation scans.
pub open spec fn vec_survivor(
    files2: Seq<SourceFile>,
    dirs2: Seq<Vec<String>>,
    d: Seq<Seq<char>>,
    od: Seq<Seq<char>>,
) -> bool {
    ||| exists|i: int|
        0 <= i < files2.len() && is_strict_prefix(d, (#[trigger] files2[i]).path_view())
    ||| exists|j: int|
        0 <= j < dirs2.len() && is_strict_prefix(d, segs_view(#[trigger] dirs2[j]@))
            && !is_strict_prefix(segs_view(dirs2[j]@), od)
}

/// Scan the moved files and directories for an entry strictly under `d`
/// that is not itself an ancestor of `od`.
fn scan_survivor(
    files2: &Vec<SourceFile>,
    dirs2: &Vec<Vec<String>>,
    d: &Vec<String>,
    od: &Vec<String>,
) -> (r: bool)
    ensures
        r == vec_survivor(files2@, dirs2@, segs_view(d@), segs_view(od@)),
{
    let nf = files2.len();
    let mut i: usize = 0;
    while i < nf
        invariant
            i <= nf,
            nf == files2@.len(),
            forall|x: int|
                0 <= x < i ==> !is_strict_prefix(segs_view(d@), (#[trigger] files2@[x]).path_view()),
        decreases nf - i,
    {
        if path_is_prefix(d, &files2[i].path) && d.len() < files2[i].path.len() {
            assert(is_strict_prefix(segs_view(d@), files2@[i as int].path_view()));
            return true;
        }
        i += 1;
    }
    let ndn = dirs2.len();
    let mut j: usize = 0;
    while j < ndn
        invariant
            j <= ndn,
            ndn == dirs2@.len(),
            forall|x: int|
                0 <= x < j ==> !(is_strict_prefix(segs_view(d@), segs_view(#[trigger] dirs2@[x]@))
                    && !is_strict_prefix(segs_view(dirs2@[x]@), segs_view(od@))),
            forall|x: int|
                0 <= x < files2@.len() ==> !is_strict_prefix(
                    segs_view(d@),
                    (#[trigger] files2@[x]).path_view(),
                ),
        decreases ndn - j,
    {
        if path_is_prefix(d, &dirs2[j]) && d.len() < dirs2[j].len() {
            if !(path_is_prefix(&dirs2[j], od) && dirs2[j].len() < od.len()) {
                assert(is_strict_prefix(segs_view(d@), segs_view(dirs2@[j as int]@)));
                return true;
            }
        }
        j += 1;
    }
    false
}

/// Whether some element of `dirs` is the path `d`.
fn dirs_contain(dirs: &Vec<Vec<String>>, d: &Vec<String>) -> (r: bool)
    ensures
        r == exists|j: int| 0 <= j < dirs@.len() && segs_view(#[trigger] dirs@[j]@) == segs_view(d@),
{
    let n = dirs.len();
    let mut i: usize = 0;
    while i < n
        invariant
            i <= n,
            n == dirs@.len(),
            forall|k: int| 0 <= k < i ==> segs_view(#[trigger] dirs@[k]@) != segs_view(d@),
        decreases n - i,
    {
        if path_eq(&dirs[i], d) {
            return true;
        }
        i += 1;
    }
    false
}

/// Rename the package `old_name` to `new_name` in this language's subtree:
/// move the package directory's whole subtree, create the new package's
/// missing ancestor directories, remove the old package's emptied ancestor
/// directories up to (but not including) the language source root, rewrite
/// the declaration line of every moved file, and rewrite every whole-token
/// reference to the old package in every file under any language source
/// root.
///
/// Fails with `MalformedName` when either name is not a well-formed dotted
/// identifier, with `NotFound` when the old package directory does not
/// exist, and with `Conflict` when the move's target stands in its way:
/// the new directory already exists, lies inside the moved subtree, or is
/// blocked by a file.  A rename of a package to itself succeeds and leaves
/// the files as they were.
#[verifier::rlimit(100)]
pub fn rename_package(
    tree: &SourceTree,
    lang: &Language,
    old_name: &str,
    new_name: &str,
) -> (r: Result<SourceTree, Error>)
    ensures
        r is Ok <==> (dotted_wf(old_name@) && dotted_wf(new_name@) && tree.has_dir(
            package_dir(*lang, old_name@),
        ) && (split_dots(old_name@) == split_dots(new_name@) || !package_conflict(
            *tree,
            package_dir(*lang, old_name@),
            package_dir(*lang, new_name@),
        ))),
        r matches Ok(t2) ==> package_renamed(*tree, t2, *lang, old_name@, new_name@),
        (!dotted_wf(old_name@) || !dotted_wf(new_name@)) ==> (r matches Err(e) && e.kind
            == ErrorKind::MalformedName),
        (dotted_wf(old_name@) && dotted_wf(new_name@) && !tree.has_dir(
            package_dir(*lang, old_name@),
        )) ==> (r matches Err(e) && e.kind == ErrorKind::NotFound),
        (dotted_wf(old_name@) && dotted_wf(new_name@) && tree.has_dir(
            package_dir(*lang, old_name@),
        ) && split_dots(old_name@) != split_dots(new_name@) && package_conflict(
            *tree,
            package_dir(*lang, old_name@),
            package_dir(*lang, new_name@),
        )) ==> (r matches Err(e) && e.kind == ErrorKind::Conflict),
{
    let old_q = match QualifiedName::from_dotted(old_name) {
        Ok(q) => q,
        Err(e) => {
            return Err(e);
        },
    };
    let new_q = match QualifiedName::from_dotted(new_name) {
        Ok(q) => q,
        Err(e) => {
            return Err(e);
        },
    };
    let root = source_root(lang);
    let od = path_concat(&root, &old_q.segments);
    let nd = path_concat(&root, &new_q.segments);
    let ghost odv = package_dir(*lang, old_name@);
    let ghost ndv = package_dir(*lang, new_name@);
    proof {
        assert(segs_view(od@) == odv);
        assert(segs_view(nd@) == ndv);
    }
    if !tree.dir_exists(&od) {
        return Err(Error::new(
            ErrorKind::NotFound,
            String::from_str("the old package directory does not exist"),
        ));
    }
    let noop = path_eq(&od, &nd);
    proof {
        if odv == ndv {
            assert(split_dots(old_name@) =~= odv.skip(3));
            assert(split_dots(new_name@) =~= ndv.skip(3));
        }
        if split_dots(old_name@) == split_dots(new_name@) {
            assert(odv =~= ndv);
        }
    }
    if !noop {
        if tree.dir_exists(&nd) {
            return Err(Error::new(
                ErrorKind::Conflict,
                String::from_str("the new package directory already exists"),
            ));
        }
        if path_is_prefix(&od, &nd) {
            return Err(Error::new(
                ErrorKind::Conflict,
                String::from_str("the new package directory lies inside the old one"),
            ));
        }
        let ndlen = nd.len();
        let mut k: usize = 0;
        while k < ndlen
            invariant
                k <= ndlen,
                ndlen == ndv.len(),
                segs_view(nd@) == ndv,
                odv == package_dir(*lang, old_name@),
                ndv == package_dir(*lang, new_name@),
                dotted_wf(old_name@),
                dotted_wf(new_name@),
                tree.has_dir(odv),
                split_dots(old_name@) != split_dots(new_name@),
                forall|k2: int| 1 <= k2 <= k ==> !tree.has_file(#[trigger] ndv.subrange(0, k2)),
            decreases ndlen - k,
        {
            let pref = path_take(&nd, k + 1);
            if tree.file_exists(&pref) {
                proof {
                    assert(tree.has_file(ndv.subrange(0, k + 1)));
                    assert(package_conflict(*tree, odv, ndv));
                }
                return Err(Error::new(
                    ErrorKind::Conflict,
                    String::from_str("a file blocks the new package directory"),
                ));
            }
            k += 1;
        }
        assert(!package_conflict(*tree, odv, ndv));
    }

    let old_dotted = old_q.dotted();
    let new_dotted = new_q.dotted();
    proof {
        lemma_join_split(old_name@);
        lemma_join_split(new_name@);
        assert(old_dotted@ == old_name@);
        assert(new_dotted@ == new_name@);
        lemma_dotted_wf_nonempty(old_name@);
        lemma_package_decl_nonempty(*lang, old_name@);
    }
    let old_decl = lang.package_decl(old_dotted.as_str());
    let new_decl = lang.package_decl(new_dotted.as_str());

    // Rewrite and, where moved, re-root every file.
    let nf = tree.files.len();
    let mut files2: Vec<SourceFile> = Vec::new();
    let mut i: usize = 0;
    while i < nf
        invariant
            i <= nf,
            nf == tree.files@.len(),
            files2@.len() == i,
            segs_view(od@) == odv,
            segs_view(nd@) == ndv,
            old_decl@ == lang.package_decl_spec(old_name@),
            new_decl@ == lang.package_decl_spec(new_name@),
            old_dotted@ == old_name@,
            new_dotted@ == new_name@,
            old_decl@.len() >= 1,
            old_name@.len() >= 1,
            forall|j: int|
                0 <= j < i ==> (#[trigger] files2@[j]).path_view() == moved_path(
                    tree.files@[j].path_view(),
                    odv,
                    ndv,
                ),
            forall|j: int|
                0 <= j < i ==> (#[trigger] files2@[j]).content@ == package_new_content(
                    tree.files@[j].path_view(),
                    tree.files@[j].content@,
                    *lang,
                    odv,
                    old_name@,
                    new_name@,
                ),
        decreases nf - i,
    {
        let f = &tree.files[i];
        if path_is_prefix(&od, &f.path) {
            let rest = path_skip(&f.path, od.len());
            let newp = path_concat(&nd, &rest);
            let (c1, _n1) = rewrite_occurrences(
                f.content.as_str(),
                old_decl.as_str(),
                new_decl.as_str(),
            );
            let (c2, _n2) = rewrite_occurrences(
                c1.as_str(),
                old_dotted.as_str(),
                new_dotted.as_str(),
            );
            files2.push(SourceFile { path: newp, content: c2 });
        } else if path_in_language_tree(&f.path) {
            let (c2, _n) = rewrite_occurrences(
                f.content.as_str(),
                old_dotted.as_str(),
                new_dotted.as_str(),
            );
            files2.push(SourceFile { path: clone_path(&f.path), content: c2 });
        } else {
            files2.push(SourceFile { path: clone_path(&f.path), content: f.content.clone() });
        }
        i += 1;
    }

    // Move the directories.
    let ndirs = tree.dirs.len();
    let mut dirs2: Vec<Vec<String>> = Vec::new();
    let mut j: usize = 0;
    while j < ndirs
        invariant
            j <= ndirs,
            ndirs == tree.dirs@.len(),
            dirs2@.len() == j,
            segs_view(od@) == odv,
            segs_view(nd@) == ndv,
            forall|x: int|
                0 <= x < j ==> segs_view(#[trigger] dirs2@[x]@) == moved_path(
                    segs_view(tree.dirs@[x]@),
                    odv,
                    ndv,
                ),
        decreases ndirs - j,
    {
        let d = &tree.dirs[j];
        if path_is_prefix(&od, d) {
            let rest = path_skip(d, od.len());
            dirs2.push(path_concat(&nd, &rest));
        } else {
            dirs2.push(clone_path(d));
        }
        j += 1;
    }

    // Create the new package's missing intermediate directories.
    let ghost base = dirs2@;
    let ndlen = nd.len();
    let mut k: usize = 1;
    while k < ndlen
        invariant
            1 <= k <= ndlen,
            ndlen == ndv.len(),
            ndlen >= 1,
            segs_view(nd@) == ndv,
            base.len() == tree.dirs@.len(),
            forall|x: int|
                0 <= x < base.len() ==> segs_view((#[trigger] base[x])@) == moved_path(
                    segs_view(tree.dirs@[x]@),
                    odv,
                    ndv,
                ),
            dirs2@.len() >= base.len(),
            forall|x: int| 0 <= x < base.len() ==> dirs2@[x] == base[x],
            forall|x: int|
                base.len() <= x < dirs2@.len() ==> is_strict_prefix(
                    segs_view(#[trigger] dirs2@[x]@),
                    ndv,
                ) && segs_view(dirs2@[x]@).len() >= 1,
            forall|k2: int|
                1 <= k2 < k ==> exists|x: int|
                    0 <= x < dirs2@.len() && segs_view(#[trigger] dirs2@[x]@)
                        == #[trigger] ndv.subrange(0, k2),
        decreases ndlen - k,
    {
        let pref = path_take(&nd, k);
        let present = dirs_contain(&dirs2, &pref);
        let ghost pre = dirs2@;
        if !present {
            proof {
                assert(is_strict_prefix(segs_view(pref@), ndv));
            }
            dirs2.push(pref);
        }
        proof {
            assert forall|k2: int| 1 <= k2 < k + 1 implies exists|x: int|
                0 <= x < dirs2@.len() && segs_view(#[trigger] dirs2@[x]@)
                    == #[trigger] ndv.subrange(0, k2) by {
                if k2 < k {
                    let x0 = choose|x: int|
                        0 <= x < pre.len() && segs_view(#[trigger] pre[x]@) == ndv.subrange(0, k2);
                    assert(dirs2@[x0] == pre[x0]);
                    assert(segs_view(dirs2@[x0]@) == ndv.subrange(0, k2));
                } else {
                    if present {
                        let x0 = choose|x: int|
                            0 <= x < pre.len() && segs_view(#[trigger] pre[x]@) == segs_view(
                                pref@,
                            );
                        assert(dirs2@[x0] == pre[x0]);
                        assert(segs_view(dirs2@[x0]@) == ndv.subrange(0, k2));
                    } else {
                        assert(segs_view(dirs2@[dirs2@.len() - 1]@) == ndv.subrange(0, k2));
                    }
                }
            }
        }
        k += 1;
    }

    // Membership in the pre-cleanup directory list.
    proof {
        assert forall|d: Seq<Seq<char>>|
            (exists|x: int| 0 <= x < dirs2@.len() && segs_view(#[trigger] dirs2@[x]@) == d)
                <==> pre_cleanup_has_dir(*tree, d, odv, ndv) by {
            if exists|x: int| 0 <= x < dirs2@.len() && segs_view(#[trigger] dirs2@[x]@) == d {
                let x = choose|x: int|
                    0 <= x < dirs2@.len() && segs_view(#[trigger] dirs2@[x]@) == d;
                if x < base.len() {
                    assert(dirs2@[x] == base[x]);
                    assert(segs_view(base[x]@) == moved_path(segs_view(tree.dirs@[x]@), odv, ndv));
                    assert(moved_path(segs_view(tree.dirs@[x]@), odv, ndv) == d);
                } else {
                    assert(is_strict_prefix(d, ndv) && d.len() >= 1);
                }
            }
            if pre_cleanup_has_dir(*tree, d, odv, ndv) {
                if exists|i2: int|
                    0 <= i2 < tree.dirs@.len() && moved_path(
                        segs_view(#[trigger] tree.dirs@[i2]@),
                        odv,
                        ndv,
                    ) == d {
                    let i2 = choose|i2: int|
                        0 <= i2 < tree.dirs@.len() && moved_path(
                            segs_view(#[trigger] tree.dirs@[i2]@),
                            odv,
                            ndv,
                        ) == d;
                    assert(dirs2@[i2] == base[i2]);
                    assert(segs_view(base[i2]@) == moved_path(segs_view(tree.dirs@[i2]@), odv, ndv));
                    assert(segs_view(dirs2@[i2]@) == d);
                } else {
                    assert(is_strict_prefix(d, ndv) && d.len() >= 1);
                    let k2 = d.len() as int;
                    assert(d =~= ndv.subrange(0, k2));
                    assert(exists|x: int|
                        0 <= x < dirs2@.len() && segs_view(#[trigger] dirs2@[x]@) == ndv.subrange(
                            0,
                            k2,
                        ));
                }
            }
        }
    }

    // Equivalence of the concrete and the abstract survivor checks.
    proof {
        assert forall|d: Seq<Seq<char>>|
            vec_survivor(files2@, dirs2@, d, odv) <==> survivor_under(*tree, d, odv, ndv) by {
            if exists|x: int|
                0 <= x < files2@.len() && is_strict_prefix(d, (#[trigger] files2@[x]).path_view()) {
                let x = choose|x: int|
                    0 <= x < files2@.len() && is_strict_prefix(
                        d,
                        (#[trigger] files2@[x]).path_view(),
                    );
                assert(is_strict_prefix(d, moved_path(tree.files@[x].path_view(), odv, ndv)));
            }
            if exists|x: int|
                0 <= x < tree.files@.len() && is_strict_prefix(
                    d,
                    moved_path(#[trigger] tree.files@[x].path_view(), odv, ndv),
                ) {
                let x = choose|x: int|
                    0 <= x < tree.files@.len() && is_strict_prefix(
                        d,
                        moved_path(#[trigger] tree.files@[x].path_view(), odv, ndv),
                    );
                assert(is_strict_prefix(d, (files2@[x]).path_view()));
            }
            if exists|x: int|
                0 <= x < dirs2@.len() && is_strict_prefix(d, segs_view(#[trigger] dirs2@[x]@))
                    && !is_strict_prefix(segs_view(dirs2@[x]@), odv) {
                let x = choose|x: int|
                    0 <= x < dirs2@.len() && is_strict_prefix(d, segs_view(#[trigger] dirs2@[x]@))
                        && !is_strict_prefix(segs_view(dirs2@[x]@), odv);
                let d2 = segs_view(dirs2@[x]@);
                assert(pre_cleanup_has_dir(*tree, d2, odv, ndv));
            }
            if exists|d2: Seq<Seq<char>>|
                #[trigger] pre_cleanup_has_dir(*tree, d2, odv, ndv) && is_strict_prefix(d, d2)
                    && !is_strict_prefix(d2, odv) {
                let d2 = choose|d2: Seq<Seq<char>>|
                    #[trigger] pre_cleanup_has_dir(*tree, d2, odv, ndv) && is_strict_prefix(d, d2)
                        && !is_strict_prefix(d2, odv);
                assert(exists|x: int|
                    0 <= x < dirs2@.len() && segs_view(#[trigger] dirs2@[x]@) == d2);
            }
        }
    }

    // Remove the old package's emptied ancestor directories.
    let nd2 = dirs2.len();
    let rootlen = root.len();
    let mut dirs3: Vec<Vec<String>> = Vec::new();
    let mut x: usize = 0;
    while x < nd2
        invariant
            x <= nd2,
            nd2 == dirs2@.len(),
            rootlen == source_root_spec(*lang).len(),
            segs_view(od@) == odv,
            forall|y: int|
                0 <= y < dirs3@.len() ==> (exists|z: int|
                    0 <= z < dirs2@.len() && segs_view(#[trigger] dirs3@[y]@) == segs_view(
                        dirs2@[z]@,
                    )) && cleanup_keeps(*tree, segs_view(dirs3@[y]@), *lang, odv, ndv),
            forall|z: int|
                0 <= z < x && cleanup_keeps(*tree, segs_view(#[trigger] dirs2@[z]@), *lang, odv, ndv)
                    ==> exists|y: int|
                    0 <= y < dirs3@.len() && segs_view(#[trigger] dirs3@[y]@) == segs_view(
                        dirs2@[z]@,
                    ),
            forall|d: Seq<Seq<char>>|
                vec_survivor(files2@, dirs2@, d, odv) <==> survivor_under(*tree, d, odv, ndv),
        decreases nd2 - x,
    {
        let d = &dirs2[x];
        let chain = path_is_prefix(d, &od) && d.len() < od.len() && d.len() > rootlen;
        let keep = if !chain {
            true
        } else {
            scan_survivor(&files2, &dirs2, d, &od)
        };
        proof {
            assert(chain == is_chain_dir(segs_view(d@), odv, *lang));
            assert(keep == cleanup_keeps(*tree, segs_view(d@), *lang, odv, ndv));
        }
        let ghost pre3 = dirs3@;
        if keep {
            dirs3.push(clone_path(d));
        }
        proof {
            assert forall|y: int| 0 <= y < dirs3@.len() implies ((exists|z: int|
                0 <= z < dirs2@.len() && segs_view(#[trigger] dirs3@[y]@) == segs_view(
                    dirs2@[z]@,
                )) && cleanup_keeps(*tree, segs_view(dirs3@[y]@), *lang, odv, ndv)) by {
                if y < pre3.len() {
                    assert(dirs3@[y] == pre3[y]);
                    assert(segs_view(pre3[y]@) == segs_view(dirs3@[y]@));
                } else {
                    assert(segs_view(dirs3@[y]@) == segs_view(dirs2@[x as int]@));
                }
            }
            assert forall|z: int|
                0 <= z < x + 1 && cleanup_keeps(
                    *tree,
                    segs_view(#[trigger] dirs2@[z]@),
                    *lang,
                    odv,
                    ndv,
                ) implies exists|y: int|
                0 <= y < dirs3@.len() && segs_view(#[trigger] dirs3@[y]@) == segs_view(
                    dirs2@[z]@,
                ) by {
                if z < x {
                    let y0 = choose|y: int|
                        0 <= y < pre3.len() && segs_view(#[trigger] pre3[y]@) == segs_view(
                            dirs2@[z]@,
                        );
                    assert(dirs3@[y0] == pre3[y0]);
                    assert(segs_view(dirs3@[y0]@) == segs_view(dirs2@[z]@));
                } else {
                    assert(keep);
                    assert(segs_view(dirs3@[dirs3@.len() - 1]@) == segs_view(dirs2@[x as int]@));
                }
            }
        }
        x += 1;
    }

    let t2 = SourceTree { dirs: dirs3, files: files2 };
    proof {
        assert(t2.dirs@ == dirs3@);
        assert(t2.files@ == files2@);
        assert forall|d: Seq<Seq<char>>|
            #![trigger t2.has_dir(d)]
            #![trigger pre_cleanup_has_dir(*tree, d, odv, ndv)]
            t2.has_dir(d) <==> (pre_cleanup_has_dir(*tree, d, odv, ndv) && cleanup_keeps(
                *tree,
                d,
                *lang,
                odv,
                ndv,
            )) by {
            if t2.has_dir(d) {
                let y = choose|y: int|
                    0 <= y < t2.dirs@.len() && segs_view(#[trigger] t2.dirs@[y]@) == d;
                assert(exists|z: int|
                    0 <= z < dirs2@.len() && segs_view(#[trigger] dirs2@[z]@) == d);
            }
            if pre_cleanup_has_dir(*tree, d, odv, ndv) && cleanup_keeps(*tree, d, *lang, odv, ndv) {
                let z = choose|z: int|
                    0 <= z < dirs2@.len() && segs_view(#[trigger] dirs2@[z]@) == d;
                assert(exists|y: int|
                    0 <= y < dirs3@.len() && segs_view(#[trigger] dirs3@[y]@) == d);
            }
        }
        assert(package_renamed(*tree, t2, *lang, old_name@, new_name@));
    }
    Ok(t2)
}

/// The directory of the package enclosing a fully qualified class name.
pub open spec fn class_parent_dir(lang: Language, cls: Seq<char>) -> Seq<Seq<char>> {
    source_root_spec(lang) + split_dots(cls).drop_last()
}

/// The source file of a fully qualified class name: the enclosing
/// package's directory, then the simple name with the language's
/// extension.
pub open spec fn class_file_path(lang: Language, cls: Seq<char>) -> Seq<Seq<char>> {
    class_parent_dir(lang, cls) + seq![split_dots(cls).last() + "."@ + lang.extension_spec()]
}

/// A file's content after a class rename: the renamed class's own file
/// first has its declaration token substituted (keyword and old simple
/// name to keyword and new simple name), then, like every file under a
/// language source root, its whole-token references to the old fully
/// qualified class name rewritten to the new one.
pub open spec fn class_new_content(
    p: Seq<Seq<char>>,
    c: Seq<char>,
    lang: Language,
    ofile: Seq<Seq<char>>,
    old: Seq<char>,
    new: Seq<char>,
) -> Seq<char> {
    if p == ofile {
        rewritten(
            rewritten(
                c,
                lang.class_decl_spec(split_dots(old).last()),
                lang.class_decl_spec(split_dots(new).last()),
            ),
            old,
            new,
        )
    } else if in_language_tree(p) {
        rewritten(c, old, new)
    } else {
        c
    }
}

/// What a successful class rename does to the tree: the class's source
/// file moves to the new package directory under the new simple name and
/// has its declaration rewritten, every file under a language source root
/// has its references rewritten, and the directories are untouched.
pub open spec fn class_renamed(
    t: SourceTree,
    t2: SourceTree,
    lang: Language,
    old: Seq<char>,
    new: Seq<char>,
) -> bool {
    let ofile = class_file_path(lang, old);
    let nfile = class_file_path(lang, new);
    &&& t2.files@.len() == t.files@.len()
    &&& forall|i: int|
        0 <= i < t.files@.len() ==> (#[trigger] t2.files@[i]).path_view() == (
        if t.files@[i].path_view() == ofile {
            nfile
        } else {
            t.files@[i].path_view()
        })
    &&& forall|i: int|
        0 <= i < t.files@.len() ==> (#[trigger] t2.files@[i]).content@ == class_new_content(
            t.files@[i].path_view(),
            t.files@[i].content@,
            lang,
            ofile,
            old,
            new,
        )
    &&& t2.dirs@.len() == t.dirs@.len()
    &&& forall|j: int|
        0 <= j < t.dirs@.len() ==> segs_view((#[trigger] t2.dirs@[j])@) == segs_view(t.dirs@[j]@)
}

/// Both class names are well-formed dotted identifiers with an enclosing
/// package segment.
pub open spec fn class_names_wf(old: Seq<char>, new: Seq<char>) -> bool {
    &&& dotted_wf(old)
    &&& split_dots(old).len() >= 2
    &&& dotted_wf(new)
    &&& split_dots(new).len() >= 2
}

/// The target of a class move collides with the existing tree: a file or
/// a directory already stands at the new file path.
pub open spec fn class_conflict(t: SourceTree, nfile: Seq<Seq<char>>) -> bool {
    t.has_file(nfile) || t.has_dir(nfile)
}

/// Rename the class `old_name` to `new_name`, both fully qualified: move
/// its source file to the new package's directory under the new simple
/// name (the enclosing package may change in the same step), rewrite the
/// file's class declaration token, and rewrite every whole-token
/// reference to the old fully qualified name in every file under any
/// language source root.
///
/// Fails with `MalformedName` when either name is not a well-formed
/// dotted identifier of at least two segments, with `NotFound` when the
/// class's source file or the target package directory does not exist,
/// and with `Conflict` when a file or directory already stands at the
/// target file path.  A rename of a class to itself succeeds and leaves
/// the files as they were.
#[verifier::rlimit(50)]
pub fn rename_class(
    tree: &SourceTree,
    lang: &Language,
    old_name: &str,
    new_name: &str,
) -> (r: Result<SourceTree, Error>)
    ensures
        r is Ok <==> (class_names_wf(old_name@, new_name@) && tree.has_file(
            class_file_path(*lang, old_name@),
        ) && tree.has_dir(class_parent_dir(*lang, new_name@)) && (class_file_path(*lang, old_name@)
            == class_file_path(*lang, new_name@) || !class_conflict(
            *tree,
            class_file_path(*lang, new_name@),
        ))),
        r matches Ok(t2) ==> class_renamed(*tree, t2, *lang, old_name@, new_name@),
        !class_names_wf(old_name@, new_name@) ==> (r matches Err(e) && e.kind
            == ErrorKind::MalformedName),
        (class_names_wf(old_name@, new_name@) && (!tree.has_file(class_file_path(*lang, old_name@))
            || !tree.has_dir(class_parent_dir(*lang, new_name@)))) ==> (r matches Err(e) && e.kind
            == ErrorKind::NotFound),
        (class_names_wf(old_name@, new_name@) && tree.has_file(class_file_path(*lang, old_name@))
            && tree.has_dir(class_parent_dir(*lang, new_name@)) && class_file_path(
            *lang,
            old_name@,
        ) != class_file_path(*lang, new_name@) && class_conflict(
            *tree,
            class_file_path(*lang, new_name@),
        )) ==> (r matches Err(e) && e.kind == ErrorKind::Conflict),
{
    let old_q = match QualifiedName::from_dotted(old_name) {
        Ok(q) => q,
        Err(e) => {
            return Err(e);
        },
    };
    let new_q = match QualifiedName::from_dotted(new_name) {
        Ok(q) => q,
        Err(e) => {
            return Err(e);
        },
    };
    let old_parent = match old_q.parent() {
        Ok(p) => p,
        Err(e) => {
            return Err(e);
        },
    };
    let new_parent = match new_q.parent() {
        Ok(p) => p,
        Err(e) => {
            return Err(e);
        },
    };
    let root = source_root(lang);
    let ext = lang.extension();
    let old_simple = old_q.last();
    let new_simple = new_q.last();

    let mut old_fname = old_simple.clone();
    old_fname.append(".");
    old_fname.append(ext.as_str());
    let mut ofile = path_concat(&root, &old_parent.segments);
    let ghost ofv = class_file_path(*lang, old_name@);
    proof {
        assert(segs_view(ofile@.push(old_fname)) =~= segs_view(ofile@).push(old_fname@));
        assert(segs_view(ofile@).push(old_fname@) =~= ofv);
    }
    ofile.push(old_fname);

    let mut new_fname = new_simple.clone();
    new_fname.append(".");
    new_fname.append(ext.as_str());
    let mut ndir = path_concat(&root, &new_parent.segments);
    let ghost nfv = class_file_path(*lang, new_name@);
    let nfile = {
        let mut v = clone_path(&ndir);
        proof {
            assert(segs_view(v@.push(new_fname)) =~= segs_view(v@).push(new_fname@));
            assert(segs_view(v@).push(new_fname@) =~= nfv);
        }
        v.push(new_fname);
        v
    };

    if !tree.file_exists(&ofile) {
        return Err(Error::new(
            ErrorKind::NotFound,
            String::from_str("the class's source file does not exist"),
        ));
    }
    if !tree.dir_exists(&ndir) {
        return Err(Error::new(
            ErrorKind::NotFound,
            String::from_str("the new package directory does not exist"),
        ));
    }
    if !path_eq(&ofile, &nfile) {
        if tree.file_exists(&nfile) || tree.dir_exists(&nfile) {
            return Err(Error::new(
                ErrorKind::Conflict,
                String::from_str("the new class file path is already taken"),
            ));
        }
    }

    let old_dotted = old_q.dotted();
    let new_dotted = new_q.dotted();
    proof {
        lemma_join_split(old_name@);
        lemma_join_split(new_name@);
        lemma_dotted_wf_nonempty(old_name@);
        lemma_class_decl_nonempty(*lang, split_dots(old_name@).last());
    }
    let old_pat = lang.class_decl(old_simple.as_str());
    let new_pat = lang.class_decl(new_simple.as_str());

    let nf = tree.files.len();
    let mut files2: Vec<SourceFile> = Vec::new();
    let mut i: usize = 0;
    while i < nf
        invariant
            i <= nf,
            nf == tree.files@.len(),
            files2@.len() == i,
            segs_view(ofile@) == ofv,
            segs_view(nfile@) == nfv,
            old_pat@ == (*lang).class_decl_spec(split_dots(old_name@).last()),
            new_pat@ == (*lang).class_decl_spec(split_dots(new_name@).last()),
            old_dotted@ == old_name@,
            new_dotted@ == new_name@,
            old_pat@.len() >= 1,
            old_name@.len() >= 1,
            forall|j: int|
                0 <= j < i ==> (#[trigger] files2@[j]).path_view() == (
                if tree.files@[j].path_view() == ofv {
                    nfv
                } else {
                    tree.files@[j].path_view()
                }),
            forall|j: int|
                0 <= j < i ==> (#[trigger] files2@[j]).content@ == class_new_content(
                    tree.files@[j].path_view(),
                    tree.files@[j].content@,
                    *lang,
                    ofv,
                    old_name@,
                    new_name@,
                ),
        decreases nf - i,
    {
        let f = &tree.files[i];
        if path_eq(&f.path, &ofile) {
            let (c1, _n1) = rewrite_occurrences(
                f.content.as_str(),
                old_pat.as_str(),
                new_pat.as_str(),
            );
            let (c2, _n2) = rewrite_occurrences(
                c1.as_str(),
                old_dotted.as_str(),
                new_dotted.as_str(),
            );
            files2.push(SourceFile { path: clone_path(&nfile), content: c2 });
        } else if path_in_language_tree(&f.path) {
            let (c2, _n) = rewrite_occurrences(
                f.content.as_str(),
                old_dotted.as_str(),
                new_dotted.as_str(),
            );
            files2.push(SourceFile { path: clone_path(&f.path), content: c2 });
        } else {
            files2.push(SourceFile { path: clone_path(&f.path), content: f.content.clone() });
        }
        i += 1;
    }

    let ndirs = tree.dirs.len();
    let mut dirs2: Vec<Vec<String>> = Vec::new();
    let mut j: usize = 0;
    while j < ndirs
        invariant
            j <= ndirs,
            ndirs == tree.dirs@.len(),
            dirs2@.len() == j,
            forall|x: int|
                0 <= x < j ==> segs_view((#[trigger] dirs2@[x])@) == segs_view(tree.dirs@[x]@),
        decreases ndirs - j,
    {
        dirs2.push(clone_path(&tree.dirs[j]));
        j += 1;
    }

    let t2 = SourceTree { dirs: dirs2, files: files2 };
    proof {
        assert(class_renamed(*tree, t2, *lang, old_name@, new_name@));
    }
    Ok(t2)
}

/// Directory mirroring: after a package rename, every file that stood
/// under the old package directory stands at the same relative path under
/// the new package directory, its content reproduced except for the
/// declaration-line and whole-token reference substitutions.
pub proof fn lemma_directory_mirroring(
    t: SourceTree,
    t2: SourceTree,
    lang: Language,
    old: Seq<char>,
    new: Seq<char>,
)
    requires
        package_renamed(t, t2, lang, old, new),
    ensures
        forall|i: int|
            0 <= i < t.files@.len() && is_prefix(
                package_dir(lang, old),
                #[trigger] t.files@[i].path_view(),
            ) ==> t2.files@[i].path_view() == package_dir(lang, new)
                + t.files@[i].path_view().skip(package_dir(lang, old).len() as int)
                && t2.files@[i].content@ == rewritten(
                rewritten(
                    t.files@[i].content@,
                    lang.package_decl_spec(old),
                    lang.package_decl_spec(new),
                ),
                old,
                new,
            ),
{
}

/// Renaming a package to itself leaves the tree as it was: every file
/// keeps its path and its content, and the directories are unchanged.
/// The old package directory must exist, as must its ancestors — as they
/// do in any tree read from durable storage.
pub proof fn lemma_package_rename_noop(
    t: SourceTree,
    t2: SourceTree,
    lang: Language,
    name: Seq<char>,
)
    requires
        package_renamed(t, t2, lang, name, name),
        dotted_wf(name),
        t.has_dir(package_dir(lang, name)),
        forall|k: int|
            1 <= k < package_dir(lang, name).len() ==> t.has_dir(
                #[trigger] package_dir(lang, name).subrange(0, k),
            ),
    ensures
        t2.files@.len() == t.files@.len(),
        forall|i: int|
            0 <= i < t.files@.len() ==> (#[trigger] t2.files@[i]).path_view()
                == t.files@[i].path_view(),
        forall|i: int|
            0 <= i < t.files@.len() ==> (#[trigger] t2.files@[i]).content@
                == t.files@[i].content@,
        forall|d: Seq<Seq<char>>| #[trigger] t2.has_dir(d) <==> t.has_dir(d),
{
    let od = package_dir(lang, name);
    assert forall|p: Seq<Seq<char>>| #[trigger] moved_path(p, od, od) == p by {
        if is_prefix(od, p) {
            assert(od + p.skip(od.len() as int) =~= p);
        }
    }
    assert forall|i: int| 0 <= i < t.files@.len() implies (#[trigger] t2.files@[i]).content@
        == t.files@[i].content@ by {
        lemma_package_decl_nonempty(lang, name);
        lemma_dotted_wf_nonempty(name);
        let c = t.files@[i].content@;
        let p = t.files@[i].path_view();
        if is_prefix(od, p) {
            crate::rewrite::lemma_rewrite_self(c, lang.package_decl_spec(name));
            crate::rewrite::lemma_rewrite_self(c, name);
        } else if in_language_tree(p) {
            crate::rewrite::lemma_rewrite_self(c, name);
        }
    }
    assert forall|d: Seq<Seq<char>>| #[trigger] t2.has_dir(d) <==> t.has_dir(d) by {
        assert(pre_cleanup_has_dir(t, od, od, od)) by {
            let w = choose|i: int|
                0 <= i < t.dirs@.len() && segs_view(#[trigger] t.dirs@[i]@) == od;
            assert(moved_path(segs_view(t.dirs@[w]@), od, od) == od);
        }
        assert(cleanup_keeps(t, d, lang, od, od)) by {
            if is_chain_dir(d, od, lang) {
                assert(pre_cleanup_has_dir(t, od, od, od) && is_strict_prefix(d, od)
                    && !is_strict_prefix(od, od));
            }
        }
        if t.has_dir(d) {
            let w = choose|i: int|
                0 <= i < t.dirs@.len() && segs_view(#[trigger] t.dirs@[i]@) == d;
            assert(moved_path(segs_view(t.dirs@[w]@), od, od) == d);
            assert(pre_cleanup_has_dir(t, d, od, od));
        }
        if pre_cleanup_has_dir(t, d, od, od) {
            if exists|i: int|
                0 <= i < t.dirs@.len() && moved_path(segs_view(#[trigger] t.dirs@[i]@), od, od)
                    == d {
                let w = choose|i: int|
                    0 <= i < t.dirs@.len() && moved_path(
                        segs_view(#[trigger] t.dirs@[i]@),
                        od,
                        od,
                    ) == d;
                assert(segs_view(t.dirs@[w]@) == d);
                assert(t.has_dir(d));
            } else {
                assert(is_strict_prefix(d, od) && d.len() >= 1);
                assert(d =~= od.subrange(0, d.len() as int));
                assert(t.has_dir(od.subrange(0, d.len() as int)));
            }
        }
    }
}

/// Cleanup of empty ancestors: after a package rename, no directory on
/// the path from the language source root down to the old package
/// directory remains unless something — a moved file, or a directory of a
/// sibling package — still lies under it.
pub proof fn lemma_package_rename_ancestors(
    t: SourceTree,
    t2: SourceTree,
    lang: Language,
    old: Seq<char>,
    new: Seq<char>,
)
    requires
        package_renamed(t, t2, lang, old, new),
    ensures
        forall|k: int|
            source_root_spec(lang).len() < k < package_dir(lang, old).len() && #[trigger] t2.has_dir(
                package_dir(lang, old).subrange(0, k),
            ) ==> t2.has_entry_under(package_dir(lang, old).subrange(0, k)),
{
    let od = package_dir(lang, old);
    let nd = package_dir(lang, new);
    assert forall|k: int|
        source_root_spec(lang).len() < k < od.len() && #[trigger] t2.has_dir(
            od.subrange(0, k),
        ) implies t2.has_entry_under(od.subrange(0, k)) by {
        let ck = od.subrange(0, k);
        assert(is_strict_prefix(ck, od));
        assert(is_chain_dir(ck, od, lang));
        assert(pre_cleanup_has_dir(t, ck, od, nd) && cleanup_keeps(t, ck, lang, od, nd));
        assert(survivor_under(t, ck, od, nd));
        if exists|i: int|
            0 <= i < t.files@.len() && is_strict_prefix(
                ck,
                moved_path(#[trigger] t.files@[i].path_view(), od, nd),
            ) {
            let i = choose|i: int|
                0 <= i < t.files@.len() && is_strict_prefix(
                    ck,
                    moved_path(#[trigger] t.files@[i].path_view(), od, nd),
                );
            assert(is_strict_prefix(ck, (#[trigger] t2.files@[i]).path_view()));
        } else {
            let d2 = choose|d2: Seq<Seq<char>>|
                #[trigger] pre_cleanup_has_dir(t, d2, od, nd) && is_strict_prefix(ck, d2)
                    && !is_strict_prefix(d2, od);
            assert(cleanup_keeps(t, d2, lang, od, nd));
            assert(t2.has_dir(d2));
            let w = choose|j: int|
                0 <= j < t2.dirs@.len() && segs_view(#[trigger] t2.dirs@[j]@) == d2;
            assert(is_strict_prefix(ck, segs_view(t2.dirs@[w]@)));
        }
    }
}

/// Renaming a class to itself leaves the tree as it was: every file keeps
/// its path and its content, and the directories are unchanged.
pub proof fn lemma_class_rename_noop(
    t: SourceTree,
    t2: SourceTree,
    lang: Language,
    name: Seq<char>,
)
    requires
        class_renamed(t, t2, lang, name, name),
        dotted_wf(name),
    ensures
        t2.files@.len() == t.files@.len(),
        forall|i: int|
            0 <= i < t.files@.len() ==> (#[trigger] t2.files@[i]).path_view()
                == t.files@[i].path_view(),
        forall|i: int|
            0 <= i < t.files@.len() ==> (#[trigger] t2.files@[i]).content@
                == t.files@[i].content@,
        t2.dirs@.len() == t.dirs@.len(),
        forall|j: int|
            0 <= j < t.dirs@.len() ==> segs_view((#[trigger] t2.dirs@[j])@) == segs_view(
                t.dirs@[j]@,
            ),
{
    assert forall|i: int| 0 <= i < t.files@.len() implies (#[trigger] t2.files@[i]).content@
        == t.files@[i].content@ by {
        lemma_class_decl_nonempty(lang, split_dots(name).last());
        lemma_dotted_wf_nonempty(name);
        let c = t.files@[i].content@;
        let p = t.files@[i].path_view();
        if p == class_file_path(lang, name) {
            crate::rewrite::lemma_rewrite_self(c, lang.class_decl_spec(split_dots(name).last()));
            crate::rewrite::lemma_rewrite_self(c, name);
        } else if in_language_tree(p) {
            crate::rewrite::lemma_rewrite_self(c, name);
        }
    }
}

/// Class file relocation: after a class rename to a different file path,
/// the class's file stands at the new path and no file remains at the old
/// one.
pub proof fn lemma_class_file_relocated(
    t: SourceTree,
    t2: SourceTree,
    lang: Language,
    old: Seq<char>,
    new: Seq<char>,
)
    requires
        class_renamed(t, t2, lang, old, new),
        t.has_file(class_file_path(lang, old)),
        class_file_path(lang, old) != class_file_path(lang, new),
    ensures
        t2.has_file(class_file_path(lang, new)),
        !t2.has_file(class_file_path(lang, old)),
{
    let ofile = class_file_path(lang, old);
    let nfile = class_file_path(lang, new);
    let w = choose|i: int| 0 <= i < t.files@.len() && #[trigger] t.files@[i].path_view() == ofile;
    assert((#[trigger] t2.files@[w]).path_view() == nfile);
    assert(t2.has_file(nfile));
    assert forall|i: int| 0 <= i < t2.files@.len() implies (#[trigger] t2.files@[i]).path_view()
        != ofile by {
        if t.files@[i].path_view() == ofile {
            assert(t2.files@[i].path_view() == nfile);
        } else {
            assert(t2.files@[i].path_view() == t.files@[i].path_view());
        }
    }
}

} // verus!
