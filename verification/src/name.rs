use vstd::prelude::*;

use crate::error::{Error, ErrorKind};

verus! {

/// A well-formed segment of a qualified name: non-empty, with no dot (the
/// segment separator) and no slash (the path separator it becomes).
pub open spec fn seg_wf(s: Seq<char>) -> bool {
    &&& s.len() >= 1
    &&& forall|k: int| 0 <= k < s.len() ==> s[k] != '.' && s[k] != '/'
}

/// Where the first dot of `s` stands, or the length of `s` if it has none.
pub open spec fn first_dot(s: Seq<char>) -> int
    decreases s.len(),
{
    if s.len() == 0 {
        0
    } else if s[0] == '.' {
        0
    } else {
        1 + first_dot(s.subrange(1, s.len() as int))
    }
}

/// The segments of `s`, split at each dot.  Splitting never fails: an
/// empty or dot-bordered string yields empty segments, which are rejected
/// by well-formedness, not by the split.
pub open spec fn split_dots(s: Seq<char>) -> Seq<Seq<char>>
    decreases s.len(),
{
    let d = first_dot(s);
    if d < 0 || d >= s.len() {
        seq![s]
    } else {
        seq![s.subrange(0, d)] + split_dots(s.subrange(d + 1, s.len() as int))
    }
}

/// The segments of `p` joined with a dot between each pair.
pub open spec fn join_dots(p: Seq<Seq<char>>) -> Seq<char>
    decreases p.len(),
{
    if p.len() == 0 {
        Seq::empty()
    } else if p.len() == 1 {
        p[0]
    } else {
        p[0] + seq!['.'] + join_dots(p.subrange(1, p.len() as int))
    }
}

/// A dotted string is well formed when every segment the split yields is:
/// non-empty, dot-free, slash-free.
pub open spec fn dotted_wf(s: Seq<char>) -> bool {
    forall|k: int| 0 <= k < split_dots(s).len() ==> seg_wf(#[trigger] split_dots(s)[k])
}

proof fn lemma_first_dot_bounds(s: Seq<char>)
    ensures
        0 <= first_dot(s) <= s.len(),
        first_dot(s) < s.len() ==> s[first_dot(s)] == '.',
        forall|k: int| 0 <= k < first_dot(s) ==> s[k] != '.',
    decreases s.len(),
{
    if s.len() == 0 {
    } else if s[0] == '.' {
    } else {
        let tail = s.subrange(1, s.len() as int);
        lemma_first_dot_bounds(tail);
        assert forall|k: int| 0 <= k < first_dot(s) implies s[k] != '.' by {
            if k >= 1 {
                assert(tail[k - 1] != '.');
            }
        }
    }
}

proof fn lemma_first_dot_min(s: Seq<char>, d: int)
    requires
        0 <= d <= s.len(),
        forall|k: int| 0 <= k < d ==> s[k] != '.',
    ensures
        first_dot(s) >= d,
    decreases d,
{
    if d == 0 {
        lemma_first_dot_bounds(s);
    } else {
        assert(s[0] != '.');
        let tail = s.subrange(1, s.len() as int);
        assert(forall|k: int| 0 <= k < d - 1 ==> tail[k] != '.');
        lemma_first_dot_min(tail, d - 1);
        assert(first_dot(s) == 1 + first_dot(tail));
    }
}

/// Splitting always yields at least one segment.
pub proof fn lemma_split_nonempty(s: Seq<char>)
    ensures
        split_dots(s).len() >= 1,
{
}

/// Splitting at dots and joining with dots restores the original string.
pub proof fn lemma_join_split(s: Seq<char>)
    ensures
        join_dots(split_dots(s)) == s,
    decreases s.len(),
{
    lemma_first_dot_bounds(s);
    let d = first_dot(s);
    if d >= s.len() {
        assert(join_dots(split_dots(s)) =~= s);
    } else {
        let tail = s.subrange(d + 1, s.len() as int);
        lemma_join_split(tail);
        lemma_split_nonempty(tail);
        let parts = split_dots(s);
        assert(parts.subrange(1, parts.len() as int) =~= split_dots(tail));
        assert(join_dots(parts) =~= s);
    }
}

/// A well-formed dotted string is non-empty.
pub proof fn lemma_dotted_wf_nonempty(s: Seq<char>)
    requires
        dotted_wf(s),
    ensures
        s.len() >= 1,
{
    lemma_join_split(s);
    assert(seg_wf(split_dots(s)[0]));
    if s.len() == 0 {
        lemma_first_dot_bounds(s);
        assert(split_dots(s)[0] =~= s);
    }
}

proof fn lemma_no_dot(s: Seq<char>)
    requires
        forall|k: int| 0 <= k < s.len() ==> s[k] != '.',
    ensures
        first_dot(s) == s.len(),
        split_dots(s) == seq![s],
{
    lemma_first_dot_min(s, s.len() as int);
    lemma_first_dot_bounds(s);
}

/// When no dot stands in `s` between `start` and the dot at `d`, the split
/// of the suffix from `start` is `s[start..d]` followed by the split of the
/// suffix from `d + 1`.
proof fn lemma_split_step(s: Seq<char>, start: int, d: int)
    requires
        0 <= start <= d < s.len(),
        s[d] == '.',
        forall|k: int| start <= k < d ==> s[k] != '.',
    ensures
        split_dots(s.subrange(start, s.len() as int))
            == seq![s.subrange(start, d)] + split_dots(s.subrange(d + 1, s.len() as int)),
{
    let suf = s.subrange(start, s.len() as int);
    assert(forall|k: int| 0 <= k < d - start ==> suf[k] != '.');
    lemma_first_dot_min(suf, d - start);
    lemma_first_dot_bounds(suf);
    assert(suf[d - start] == '.');
    assert(first_dot(suf) == d - start);
    assert(suf.subrange(0, d - start) =~= s.subrange(start, d));
    assert(suf.subrange(d - start + 1, suf.len() as int)
        =~= s.subrange(d + 1, s.len() as int));
}

/// The mathematical value of a segment list: each segment as its character
/// sequence.
pub open spec fn segs_view(p: Seq<String>) -> Seq<Seq<char>> {
    p.map_values(|s: String| s@)
}

/// A dot-separated identifier: an ordered sequence of non-empty segments,
/// convertible to a dotted string and to directory path segments.
#[derive(Debug)]
pub struct QualifiedName {
    pub segments: Vec<String>,
}

impl QualifiedName {
    pub open spec fn view(&self) -> Seq<Seq<char>> {
        segs_view(self.segments@)
    }

    /// Every segment is non-empty and free of dots and slashes, and there
    /// is at least one.
    pub open spec fn wf(&self) -> bool {
        &&& self@.len() >= 1
        &&& forall|k: int| 0 <= k < self@.len() ==> seg_wf(#[trigger] self@[k])
    }

    /// Parse a dotted string into its segments.  Returns a `MalformedName`
    /// error when the string is empty, has an empty segment (a leading,
    /// trailing or doubled dot), or has a path separator in a segment.
    pub fn from_dotted(s: &str) -> (r: Result<QualifiedName, Error>)
        ensures
            dotted_wf(s@) ==> (r matches Ok(q) && q@ == split_dots(s@) && q.wf()),
            !dotted_wf(s@) ==> (r matches Err(e) && e.kind == ErrorKind::MalformedName),
    {
        let n = s.unicode_len();
        let mut segments: Vec<String> = Vec::new();
        let mut start: usize = 0;
        let mut i: usize = 0;
        proof {
            assert(s@.subrange(0, n as int) =~= s@);
        }
        while i < n
            invariant
                start <= i <= n,
                n == s@.len(),
                segs_view(segments@) + split_dots(s@.subrange(start as int, n as int))
                    == split_dots(s@),
                forall|k: int| 0 <= k < segments@.len()
                    ==> seg_wf(#[trigger] segs_view(segments@)[k]),
                forall|k: int| start <= k < i ==> s@[k] != '.' && s@[k] != '/',
            decreases n - i,
        {
            let c = s.get_char(i);
            if c == '/' {
                proof {
                    let suf = s@.subrange(start as int, n as int);
                    assert(forall|k: int| 0 <= k < i - start + 1 ==> suf[k] != '.');
                    lemma_first_dot_min(suf, i - start + 1);
                    lemma_first_dot_bounds(suf);
                    let seg0 = split_dots(suf)[0];
                    assert(seg0[i - start] == '/') by {
                        if first_dot(suf) >= suf.len() {
                            assert(seg0 == suf);
                        } else {
                            assert(seg0 == suf.subrange(0, first_dot(suf)));
                        }
                    }
                    assert(!seg_wf(seg0));
                    lemma_split_nonempty(suf);
                    let bad = segments@.len() as int;
                    assert(split_dots(s@)[bad] == seg0);
                    assert(!dotted_wf(s@));
                }
                return Err(Error::new(
                    ErrorKind::MalformedName,
                    String::from_str("qualified name has a path separator in a segment"),
                ));
            }
            if c == '.' {
                if i == start {
                    proof {
                        let suf = s@.subrange(start as int, n as int);
                        assert(suf[0] == '.');
                        lemma_first_dot_bounds(suf);
                        assert(first_dot(suf) == 0);
                        let seg0 = split_dots(suf)[0];
                        assert(seg0 == suf.subrange(0, 0));
                        assert(!seg_wf(seg0));
                        lemma_split_nonempty(suf);
                        let bad = segments@.len() as int;
                        assert(split_dots(s@)[bad] == seg0);
                        assert(!dotted_wf(s@));
                    }
                    return Err(Error::new(
                        ErrorKind::MalformedName,
                        String::from_str("qualified name has an empty segment"),
                    ));
                }
                let seg = String::from_str(s.substring_char(start, i));
                proof {
                    lemma_split_step(s@, start as int, i as int);
                    assert(segs_view(segments@.push(seg)) =~= segs_view(segments@).push(seg@));
                    assert(segs_view(segments@).push(seg@)
                            + split_dots(s@.subrange(i + 1, n as int))
                        =~= segs_view(segments@)
                            + split_dots(s@.subrange(start as int, n as int)));
                    assert(forall|k: int| start <= k < i ==> s@[k] != '.' && s@[k] != '/');
                    assert(seg_wf(seg@)) by {
                        assert(seg@.len() == i - start >= 1);
                        assert(forall|k: int| 0 <= k < seg@.len()
                            ==> seg@[k] == s@[start + k]);
                    }
                }
                segments.push(seg);
                start = i + 1;
            }
            i += 1;
        }
        if start == n {
            proof {
                let suf = s@.subrange(start as int, n as int);
                assert(suf =~= Seq::<char>::empty());
                lemma_first_dot_bounds(suf);
                let seg0 = split_dots(suf)[0];
                assert(seg0 == suf);
                assert(!seg_wf(seg0));
                lemma_split_nonempty(suf);
                let bad = segments@.len() as int;
                assert(split_dots(s@)[bad] == seg0);
                assert(!dotted_wf(s@));
            }
            return Err(Error::new(
                ErrorKind::MalformedName,
                String::from_str("qualified name has an empty segment"),
            ));
        }
        let seg = String::from_str(s.substring_char(start, n));
        proof {
            let suf = s@.subrange(start as int, n as int);
            assert(forall|k: int| 0 <= k < suf.len() ==> suf[k] != '.' && suf[k] != '/');
            lemma_no_dot(suf);
            assert(segs_view(segments@.push(seg)) =~= segs_view(segments@).push(seg@));
            assert(segs_view(segments@).push(seg@) =~= split_dots(s@)) by {
                assert(segs_view(segments@) + seq![suf] == split_dots(s@));
            }
            assert(seg_wf(seg@));
        }
        segments.push(seg);
        let q = QualifiedName { segments };
        proof {
            assert(q.wf());
            assert(dotted_wf(s@)) by {
                assert(forall|k: int| 0 <= k < split_dots(s@).len()
                    ==> seg_wf(#[trigger] split_dots(s@)[k])) by {
                    assert(forall|k: int| 0 <= k < q@.len()
                        ==> seg_wf(#[trigger] q@[k]));
                    assert(q@ == split_dots(s@));
                }
            }
        }
        Ok(q)
    }

    /// The dotted string of this name: its segments joined with dots.
    pub fn dotted(&self) -> (r: String)
        requires
            self@.len() >= 1,
        ensures
            r@ == join_dots(self@),
    {
        let mut out = String::new();
        let n = self.segments.len();
        out.append(self.segments[0].as_str());
        let mut i: usize = 1;
        proof {
            reveal_strlit(".");
            assert(out@ == join_dots(self@.subrange(0, 1)));
        }
        while i < n
            invariant
                1 <= i <= n,
                n == self@.len(),
                out@ == join_dots(self@.subrange(0, i as int)),
            decreases n - i,
        {
            out.append(".");
            out.append(self.segments[i].as_str());
            proof {
                reveal_strlit(".");
                lemma_join_snoc(self@.subrange(0, i as int), self@[i as int]);
                assert(self@.subrange(0, i + 1)
                    =~= self@.subrange(0, i as int).push(self@[i as int]));
                assert("."@ =~= seq!['.']);
            }
            i += 1;
        }
        proof {
            assert(self@.subrange(0, n as int) =~= self@);
        }
        out
    }

    /// All segments but the last: the enclosing scope of this name.
    /// Returns a `MalformedName` error when the name has a single segment
    /// and so no enclosing scope.
    pub fn parent(&self) -> (r: Result<QualifiedName, Error>)
        requires
            self@.len() >= 1,
        ensures
            self@.len() >= 2 ==> (r matches Ok(q) && q@ == self@.drop_last()),
            self@.len() == 1 ==> (r matches Err(e) && e.kind == ErrorKind::MalformedName),
    {
        if self.segments.len() < 2 {
            return Err(Error::new(
                ErrorKind::MalformedName,
                String::from_str("qualified name has no enclosing scope"),
            ));
        }
        let mut segments: Vec<String> = Vec::new();
        let n = self.segments.len() - 1;
        let mut i: usize = 0;
        while i < n
            invariant
                i <= n,
                n + 1 == self.segments@.len(),
                segs_view(segments@) =~= self@.subrange(0, i as int),
            decreases n - i,
        {
            let seg = self.segments[i].clone();
            proof {
                assert(segs_view(segments@.push(seg)) =~= segs_view(segments@).push(seg@));
                assert(segs_view(segments@).push(seg@) =~= self@.subrange(0, i + 1));
            }
            segments.push(seg);
            i += 1;
        }
        proof {
            assert(self@.subrange(0, n as int) =~= self@.drop_last());
        }
        Ok(QualifiedName { segments })
    }

    /// The last segment: the simple, unqualified name.
    pub fn last(&self) -> (r: String)
        requires
            self@.len() >= 1,
        ensures
            r@ == self@[self@.len() - 1],
    {
        self.segments[self.segments.len() - 1].clone()
    }
}

proof fn lemma_join_snoc(p: Seq<Seq<char>>, last: Seq<char>)
    requires
        p.len() >= 1,
    ensures
        join_dots(p.push(last)) == join_dots(p) + seq!['.'] + last,
    decreases p.len(),
{
    if p.len() == 1 {
        assert(p.push(last).subrange(1, 2) =~= seq![last]);
        assert(join_dots(seq![last]) == last);
        assert(join_dots(p.push(last)) =~= p[0] + seq!['.'] + last);
    } else {
        lemma_join_snoc(p.subrange(1, p.len() as int), last);
        assert(p.push(last).subrange(1, p.len() as int + 1)
            =~= p.subrange(1, p.len() as int).push(last));
        assert(join_dots(p.push(last)) =~= join_dots(p) + seq!['.'] + last);
    }
}

} // verus!
