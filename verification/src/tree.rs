use vstd::prelude::*;

use crate::language::Language;
use crate::name::segs_view;

verus! {

/// A source file of the project: its path as segments relative to the
/// project root, and its content.
#[derive(Debug)]
pub struct SourceFile {
    pub path: Vec<String>,
    pub content: String,
}

impl SourceFile {
    /// The mathematical value of the path: each segment as its character
    /// sequence.
    pub open spec fn path_view(&self) -> Seq<Seq<char>> {
        segs_view(self.path@)
    }
}

/// The project tree a rename operates on: every directory and every file,
/// with paths as segment sequences relative to the project root.  The
/// caller materializes it from durable storage before a rename and applies
/// the returned tree afterwards.
#[derive(Debug)]
pub struct SourceTree {
    pub dirs: Vec<Vec<String>>,
    pub files: Vec<SourceFile>,
}

/// `p` is a (not necessarily proper) leading part of `q`.
pub open spec fn is_prefix(p: Seq<Seq<char>>, q: Seq<Seq<char>>) -> bool {
    &&& p.len() <= q.len()
    &&& forall|k: int| 0 <= k < p.len() ==> p[k] == q[k]
}

/// `p` is a proper leading part of `q`: `q` lies strictly under the
/// directory `p`.
pub open spec fn is_strict_prefix(p: Seq<Seq<char>>, q: Seq<Seq<char>>) -> bool {
    is_prefix(p, q) && p.len() < q.len()
}

impl SourceTree {
    /// The directory `d` exists in the tree.
    pub open spec fn has_dir(&self, d: Seq<Seq<char>>) -> bool {
        exists|i: int| 0 <= i < self.dirs@.len() && segs_view(self.dirs@[i]@) == d
    }

    /// A file stands at path `p` in the tree.
    pub open spec fn has_file(&self, p: Seq<Seq<char>>) -> bool {
        exists|i: int| 0 <= i < self.files@.len() && self.files@[i].path_view() == p
    }

    /// Some file or directory lies strictly under the directory `d`.
    pub open spec fn has_entry_under(&self, d: Seq<Seq<char>>) -> bool {
        ||| exists|i: int| 0 <= i < self.files@.len()
            && is_strict_prefix(d, #[trigger] self.files@[i].path_view())
        ||| exists|i: int| 0 <= i < self.dirs@.len()
            && is_strict_prefix(d, segs_view(#[trigger] self.dirs@[i]@))
    }
}

/// The directory of a language's sources: `src/main/<sourceDirName>`,
/// relative to the project root.
pub open spec fn source_root_spec(lang: Language) -> Seq<Seq<char>> {
    seq!["src"@, "main"@, lang.source_dir_spec()]
}

/// The path lies under one of the language source roots, so its file takes
/// part in project-wide reference rewriting.
pub open spec fn in_language_tree(p: Seq<Seq<char>>) -> bool {
    ||| is_strict_prefix(source_root_spec(Language::Java), p)
    ||| is_strict_prefix(source_root_spec(Language::Kotlin), p)
}

/// Compare two paths segment by segment.
pub fn path_eq(a: &Vec<String>, b: &Vec<String>) -> (r: bool)
    ensures
        r == (segs_view(a@) == segs_view(b@)),
{
    if a.len() != b.len() {
        return false;
    }
    let n = a.len();
    let mut i: usize = 0;
    while i < n
        invariant
            i <= n,
            n == a@.len() == b@.len(),
            forall|k: int| 0 <= k < i ==> segs_view(a@)[k] == segs_view(b@)[k],
        decreases n - i,
    {
        if !a[i].eq(&b[i]) {
            assert(segs_view(a@)[i as int] != segs_view(b@)[i as int]);
            return false;
        }
        i += 1;
    }
    proof {
        assert(segs_view(a@) =~= segs_view(b@));
    }
    true
}

/// Decide whether `p` is a leading part of `q`, segment by segment.
pub fn path_is_prefix(p: &Vec<String>, q: &Vec<String>) -> (r: bool)
    ensures
        r == is_prefix(segs_view(p@), segs_view(q@)),
{
    if p.len() > q.len() {
        return false;
    }
    let n = p.len();
    let mut i: usize = 0;
    while i < n
        invariant
            i <= n,
            n == p@.len(),
            n <= q@.len(),
            forall|k: int| 0 <= k < i ==> segs_view(p@)[k] == segs_view(q@)[k],
        decreases n - i,
    {
        if !p[i].eq(&q[i]) {
            assert(segs_view(p@)[i as int] != segs_view(q@)[i as int]);
            return false;
        }
        i += 1;
    }
    true
}

/// A copy of a path, segment by segment.
pub fn clone_path(p: &Vec<String>) -> (r: Vec<String>)
    ensures
        segs_view(r@) == segs_view(p@),
{
    let mut out: Vec<String> = Vec::new();
    let n = p.len();
    let mut i: usize = 0;
    while i < n
        invariant
            i <= n,
            n == p@.len(),
            segs_view(out@) =~= segs_view(p@).subrange(0, i as int),
        decreases n - i,
    {
        let seg = p[i].clone();
        proof {
            assert(segs_view(out@.push(seg)) =~= segs_view(out@).push(seg@));
            assert(segs_view(out@).push(seg@) =~= segs_view(p@).subrange(0, i + 1));
        }
        out.push(seg);
        i += 1;
    }
    proof {
        assert(segs_view(p@).subrange(0, n as int) =~= segs_view(p@));
    }
    out
}

/// The concatenation of two paths.
pub fn path_concat(a: &Vec<String>, b: &Vec<String>) -> (r: Vec<String>)
    ensures
        segs_view(r@) == segs_view(a@) + segs_view(b@),
{
    let mut out = clone_path(a);
    let n = b.len();
    let mut i: usize = 0;
    while i < n
        invariant
            i <= n,
            n == b@.len(),
            segs_view(out@) =~= segs_view(a@) + segs_view(b@).subrange(0, i as int),
        decreases n - i,
    {
        let seg = b[i].clone();
        proof {
            assert(segs_view(out@.push(seg)) =~= segs_view(out@).push(seg@));
            assert(segs_view(out@).push(seg@)
                =~= segs_view(a@) + segs_view(b@).subrange(0, i + 1));
        }
        out.push(seg);
        i += 1;
    }
    proof {
        assert(segs_view(b@).subrange(0, n as int) =~= segs_view(b@));
    }
    out
}

/// The first `k` segments of a path.
pub fn path_take(p: &Vec<String>, k: usize) -> (r: Vec<String>)
    requires
        k <= p@.len(),
    ensures
        segs_view(r@) == segs_view(p@).subrange(0, k as int),
{
    let mut out: Vec<String> = Vec::new();
    let mut i: usize = 0;
    while i < k
        invariant
            i <= k,
            k <= p@.len(),
            segs_view(out@) =~= segs_view(p@).subrange(0, i as int),
        decreases k - i,
    {
        let seg = p[i].clone();
        proof {
            assert(segs_view(out@.push(seg)) =~= segs_view(out@).push(seg@));
            assert(segs_view(out@).push(seg@) =~= segs_view(p@).subrange(0, i + 1));
        }
        out.push(seg);
        i += 1;
    }
    out
}

/// The segments of a path from position `k` on.
pub fn path_skip(p: &Vec<String>, k: usize) -> (r: Vec<String>)
    requires
        k <= p@.len(),
    ensures
        segs_view(r@) == segs_view(p@).skip(k as int),
{
    let mut out: Vec<String> = Vec::new();
    let n = p.len();
    let mut i: usize = k;
    while i < n
        invariant
            k <= i <= n,
            n == p@.len(),
            segs_view(out@) =~= segs_view(p@).subrange(k as int, i as int),
        decreases n - i,
    {
        let seg = p[i].clone();
        proof {
            assert(segs_view(out@.push(seg)) =~= segs_view(out@).push(seg@));
            assert(segs_view(out@).push(seg@)
                =~= segs_view(p@).subrange(k as int, i + 1));
        }
        out.push(seg);
        i += 1;
    }
    proof {
        assert(segs_view(p@).subrange(k as int, n as int) =~= segs_view(p@).skip(k as int));
    }
    out
}

impl SourceTree {
    /// Decide whether the directory `d` exists in the tree.
    pub fn dir_exists(&self, d: &Vec<String>) -> (r: bool)
        ensures
            r == self.has_dir(segs_view(d@)),
    {
        let n = self.dirs.len();
        let mut i: usize = 0;
        while i < n
            invariant
                i <= n,
                n == self.dirs@.len(),
                forall|k: int| 0 <= k < i ==> segs_view(self.dirs@[k]@) != segs_view(d@),
            decreases n - i,
        {
            if path_eq(&self.dirs[i], d) {
                return true;
            }
            i += 1;
        }
        false
    }

    /// Decide whether a file stands at path `p` in the tree.
    pub fn file_exists(&self, p: &Vec<String>) -> (r: bool)
        ensures
            r == self.has_file(segs_view(p@)),
    {
        let n = self.files.len();
        let mut i: usize = 0;
        while i < n
            invariant
                i <= n,
                n == self.files@.len(),
                forall|k: int| 0 <= k < i ==> self.files@[k].path_view() != segs_view(p@),
            decreases n - i,
        {
            if path_eq(&self.files[i].path, p) {
                return true;
            }
            i += 1;
        }
        false
    }

}

/// The directory of a language's sources, as a path from the project
/// root.
pub fn source_root(lang: &Language) -> (r: Vec<String>)
    ensures
        segs_view(r@) == source_root_spec(*lang),
{
    let mut out: Vec<String> = Vec::new();
    out.push(String::from_str("src"));
    out.push(String::from_str("main"));
    out.push(lang.source_dir_name());
    proof {
        assert(segs_view(out@) =~= source_root_spec(*lang));
    }
    out
}

/// Decide whether `p` lies under one of the language source roots.
pub fn path_in_language_tree(p: &Vec<String>) -> (r: bool)
    ensures
        r == in_language_tree(segs_view(p@)),
{
    let java_root = source_root(&Language::Java);
    let kotlin_root = source_root(&Language::Kotlin);
    (path_is_prefix(&java_root, p) && java_root.len() < p.len())
        || (path_is_prefix(&kotlin_root, p) && kotlin_root.len() < p.len())
}

} // verus!
