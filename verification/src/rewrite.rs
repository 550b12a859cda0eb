use vstd::prelude::*;

verus! {

/// A character that can extend an identifier: an ASCII letter, an ASCII
/// digit, or an underscore.
pub open spec fn is_ident_char(c: char) -> bool {
    ||| 'a' as u32 <= c as u32 && c as u32 <= 'z' as u32
    ||| 'A' as u32 <= c as u32 && c as u32 <= 'Z' as u32
    ||| '0' as u32 <= c as u32 && c as u32 <= '9' as u32
    ||| c == '_'
}

/// `pat` occurs in `text` at position `i` as a complete token: the
/// characters match; the occurrence is not preceded by an identifier
/// character (which would bury it in a longer identifier) nor by a dot
/// (which would make it an inner or trailing part of a longer dotted
/// chain); and it is not followed by an identifier character (which would
/// extend its last segment).  A dot after the occurrence is allowed: the
/// token then stands as the complete leading segment group of a longer
/// qualified name, as a package does in a reference to one of its
/// classes, and renaming the package must rewrite exactly such prefixes.
pub open spec fn match_at(text: Seq<char>, pat: Seq<char>, i: int) -> bool {
    &&& 0 <= i
    &&& i + pat.len() <= text.len()
    &&& text.subrange(i, i + pat.len()) == pat
    &&& (i == 0 || (!is_ident_char(text[i - 1]) && text[i - 1] != '.'))
    &&& (i + pat.len() == text.len() || !is_ident_char(text[i + pat.len()]))
}

/// The text from position `i` on, with every complete-token occurrence of
/// `pat` replaced by `rep`, scanning left to right without overlap.
pub open spec fn rewritten_from(text: Seq<char>, pat: Seq<char>, rep: Seq<char>, i: int) -> Seq<char>
    recommends
        0 <= i <= text.len(),
        pat.len() >= 1,
    decreases text.len() - i,
        when 0 <= i <= text.len() && pat.len() >= 1
{
    if i >= text.len() {
        Seq::empty()
    } else if match_at(text, pat, i) {
        rep + rewritten_from(text, pat, rep, i + pat.len())
    } else {
        seq![text[i]] + rewritten_from(text, pat, rep, i + 1)
    }
}

/// The whole text with every complete-token occurrence of `pat` replaced
/// by `rep`.
pub open spec fn rewritten(text: Seq<char>, pat: Seq<char>, rep: Seq<char>) -> Seq<char> {
    rewritten_from(text, pat, rep, 0)
}

/// How many complete-token occurrences of `pat` the left-to-right scan
/// replaces from position `i` on.
pub open spec fn match_count_from(text: Seq<char>, pat: Seq<char>, i: int) -> nat
    recommends
        0 <= i <= text.len(),
        pat.len() >= 1,
    decreases text.len() - i,
        when 0 <= i <= text.len() && pat.len() >= 1
{
    if i >= text.len() {
        0
    } else if match_at(text, pat, i) {
        1 + match_count_from(text, pat, i + pat.len())
    } else {
        match_count_from(text, pat, i + 1)
    }
}

/// How many complete-token occurrences of `pat` are replaced in `text`.
pub open spec fn match_count(text: Seq<char>, pat: Seq<char>) -> nat {
    match_count_from(text, pat, 0)
}

/// The scan replaces at most one occurrence per remaining character.
proof fn lemma_count_bound(text: Seq<char>, pat: Seq<char>, i: int)
    requires
        0 <= i <= text.len(),
        pat.len() >= 1,
    ensures
        match_count_from(text, pat, i) <= text.len() - i,
    decreases text.len() - i,
{
    if i >= text.len() {
    } else if match_at(text, pat, i) {
        lemma_count_bound(text, pat, i + pat.len());
    } else {
        lemma_count_bound(text, pat, i + 1);
    }
}

/// Replacing a pattern by itself changes nothing: the suffix from `i` is
/// reproduced verbatim.
proof fn lemma_rewrite_self_from(text: Seq<char>, pat: Seq<char>, i: int)
    requires
        0 <= i <= text.len(),
        pat.len() >= 1,
    ensures
        rewritten_from(text, pat, pat, i) == text.subrange(i, text.len() as int),
    decreases text.len() - i,
{
    if i >= text.len() {
        assert(rewritten_from(text, pat, pat, i) =~= text.subrange(i, text.len() as int));
    } else if match_at(text, pat, i) {
        lemma_rewrite_self_from(text, pat, i + pat.len());
        assert(rewritten_from(text, pat, pat, i) =~= text.subrange(i, text.len() as int));
    } else {
        lemma_rewrite_self_from(text, pat, i + 1);
        assert(rewritten_from(text, pat, pat, i) =~= text.subrange(i, text.len() as int));
    }
}

/// Substituting a qualified name for itself is the identity: the rewritten
/// text is the original text, whatever the pattern and wherever it occurs.
pub proof fn lemma_rewrite_self(text: Seq<char>, pat: Seq<char>)
    requires
        pat.len() >= 1,
    ensures
        rewritten(text, pat, pat) == text,
{
    lemma_rewrite_self_from(text, pat, 0);
    assert(text.subrange(0, text.len() as int) =~= text);
}

/// A text without a complete-token occurrence of the pattern is left
/// unchanged, and the replacement count is zero: near-matches embedded in
/// longer identifiers or dotted chains never trigger a substitution.
pub proof fn lemma_no_match_unchanged(text: Seq<char>, pat: Seq<char>, rep: Seq<char>)
    requires
        pat.len() >= 1,
        forall|j: int| !match_at(text, pat, j),
    ensures
        rewritten(text, pat, rep) == text,
        match_count(text, pat) == 0,
{
    lemma_no_match_unchanged_from(text, pat, rep, 0);
    assert(text.subrange(0, text.len() as int) =~= text);
}

proof fn lemma_no_match_unchanged_from(text: Seq<char>, pat: Seq<char>, rep: Seq<char>, i: int)
    requires
        0 <= i <= text.len(),
        pat.len() >= 1,
        forall|j: int| !match_at(text, pat, j),
    ensures
        rewritten_from(text, pat, rep, i) == text.subrange(i, text.len() as int),
        match_count_from(text, pat, i) == 0,
    decreases text.len() - i,
{
    if i >= text.len() {
        assert(rewritten_from(text, pat, rep, i) =~= text.subrange(i, text.len() as int));
    } else {
        assert(!match_at(text, pat, i));
        lemma_no_match_unchanged_from(text, pat, rep, i + 1);
        assert(rewritten_from(text, pat, rep, i) =~= text.subrange(i, text.len() as int));
    }
}

/// A text that is exactly the token is rewritten to exactly the
/// replacement, in one substitution: an occurrence with nothing around it
/// always counts as a complete token.
pub proof fn lemma_whole_token_rewritten(pat: Seq<char>, rep: Seq<char>)
    requires
        pat.len() >= 1,
    ensures
        rewritten(pat, pat, rep) == rep,
        match_count(pat, pat) == 1,
{
    assert(pat.subrange(0, pat.len() as int) =~= pat);
    assert(match_at(pat, pat, 0));
    assert(rewritten(pat, pat, rep) =~= rep + rewritten_from(pat, pat, rep, pat.len() as int));
    assert(rep + Seq::<char>::empty() =~= rep);
    assert(match_count_from(pat, pat, pat.len() as int) == 0);
    assert(match_count(pat, pat) == 1 + match_count_from(pat, pat, pat.len() as int));
}

fn is_ident_char_exec(c: char) -> (r: bool)
    ensures
        r == is_ident_char(c),
{
    let u = c as u32;
    ('a' as u32 <= u && u <= 'z' as u32) || ('A' as u32 <= u && u <= 'Z' as u32)
        || ('0' as u32 <= u && u <= '9' as u32) || c == '_'
}

fn match_at_exec(text: &str, pat: &str, i: usize, n: usize, m: usize) -> (r: bool)
    requires
        n == text@.len(),
        m == pat@.len(),
        m >= 1,
        i <= n,
    ensures
        r == match_at(text@, pat@, i as int),
{
    if m > n - i {
        assert(!match_at(text@, pat@, i as int));
        return false;
    }
    let mut j: usize = 0;
    while j < m
        invariant
            j <= m,
            i + m <= n,
            n == text@.len(),
            m == pat@.len(),
            forall|k: int| 0 <= k < j ==> text@[i + k] == pat@[k],
        decreases m - j,
    {
        if text.get_char(i + j) != pat.get_char(j) {
            assert(!match_at(text@, pat@, i as int)) by {
                if text@.subrange(i as int, i + m) == pat@ {
                    assert(text@.subrange(i as int, i + m)[j as int] == text@[i + j]);
                }
            }
            return false;
        }
        j += 1;
    }
    if i > 0 {
        let prev = text.get_char(i - 1);
        if is_ident_char_exec(prev) || prev == '.' {
            assert(!match_at(text@, pat@, i as int));
            return false;
        }
    }
    if i + m < n && is_ident_char_exec(text.get_char(i + m)) {
        assert(!match_at(text@, pat@, i as int));
        return false;
    }
    assert(text@.subrange(i as int, i + m) =~= pat@);
    true
}

/// Whole-token substitution: scans `text` left to right and replaces every
/// occurrence of `pat` that stands as a complete token — neither buried in
/// a longer identifier nor standing as an inner or trailing part of a
/// longer dotted chain — with `rep`, returning the rewritten text and the
/// number of replacements made.  Zero replacements is not an error.
pub fn rewrite_occurrences(text: &str, pat: &str, rep: &str) -> (res: (String, usize))
    requires
        pat@.len() >= 1,
    ensures
        res.0@ == rewritten(text@, pat@, rep@),
        res.1 as nat == match_count(text@, pat@),
{
    let n = text.unicode_len();
    let m = pat.unicode_len();
    let mut out = String::new();
    let mut cnt: usize = 0;
    let mut i: usize = 0;
    proof {
        lemma_count_bound(text@, pat@, 0);
    }
    while i < n
        invariant
            i <= n,
            n == text@.len(),
            m == pat@.len(),
            m >= 1,
            cnt <= i,
            out@ + rewritten_from(text@, pat@, rep@, i as int) == rewritten(text@, pat@, rep@),
            cnt + match_count_from(text@, pat@, i as int) == match_count(text@, pat@),
        decreases n - i,
    {
        if match_at_exec(text, pat, i, n, m) {
            out.append(rep);
            proof {
                assert(out@ + rewritten_from(text@, pat@, rep@, i + m)
                    =~= (out@.subrange(0, out@.len() - rep@.len())
                        + (rep@ + rewritten_from(text@, pat@, rep@, i + m))));
            }
            i += m;
            cnt += 1;
        } else {
            let piece = text.substring_char(i, i + 1);
            out.append(piece);
            proof {
                assert(piece@ =~= seq![text@[i as int]]);
                assert(out@ + rewritten_from(text@, pat@, rep@, i + 1)
                    =~= (out@.subrange(0, out@.len() - 1)
                        + (seq![text@[i as int]] + rewritten_from(text@, pat@, rep@, i + 1))));
            }
            i += 1;
        }
    }
    proof {
        assert(out@ + rewritten_from(text@, pat@, rep@, i as int) =~= out@);
    }
    (out, cnt)
}

} // verus!
