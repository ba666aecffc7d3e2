//! Splitting a filename into a base and an extension.
//!
//! A name that starts with a dot and has no further dot is a dotfile: its
//! base is empty and the whole name is the extension. A name ending in one
//! of the compound suffixes `.tar.gz`, `.tar.bz2`, `.tar.xz`, `.tar.zst`
//! (matched ASCII-case-insensitively) splits at the suffix boundary.
//! Otherwise the split is at the last dot, if there is one past position
//! zero; a name without such a dot has an empty extension.

use crate::chars::{lower_char, str_chars, to_lower};
use vstd::prelude::*;
use vstd::string::StrSliceExecFns;

verus! {

/// Index of the last dot of `s` at a position greater than zero, or `-1`
/// when there is none.
pub open spec fn last_dot(s: Seq<char>) -> int
    decreases s.len(),
{
    if s.len() <= 1 {
        -1
    } else if s.last() == '.' {
        s.len() - 1
    } else {
        last_dot(s.drop_last())
    }
}

/// `last_dot` finds a dot when it reports one, and nothing but dots at
/// positions it has ruled out.
pub proof fn lemma_last_dot(s: Seq<char>)
    ensures
        -1 <= last_dot(s) < s.len(),
        last_dot(s) >= 1 ==> s[last_dot(s)] == '.',
        last_dot(s) >= 0 ==> last_dot(s) >= 1,
        forall|i: int| last_dot(s) < i < s.len() && i >= 1 ==> s[i] != '.',
    decreases s.len(),
{
    if s.len() <= 1 {
    } else if s.last() == '.' {
    } else {
        lemma_last_dot(s.drop_last());
        assert forall|i: int| last_dot(s) < i < s.len() && i >= 1 implies s[i] != '.' by {
            if i < s.len() - 1 {
                assert(s.drop_last()[i] == s[i]);
            }
        }
    }
}

/// A name that begins with a dot and has no further dot.
pub open spec fn is_pure_dotfile(s: Seq<char>) -> bool {
    s.len() > 0 && s[0] == '.' && last_dot(s) == -1
}

/// True when `s` ends with `suf` up to ASCII case.
pub open spec fn matches_suffix(s: Seq<char>, suf: Seq<char>) -> bool {
    s.len() >= suf.len() && forall|i: int|
        0 <= i < suf.len() ==> lower_char(s[s.len() - suf.len() + i]) == suf[i]
}

pub open spec fn suffix_tar_gz() -> Seq<char> {
    seq!['.', 't', 'a', 'r', '.', 'g', 'z']
}

pub open spec fn suffix_tar_bz2() -> Seq<char> {
    seq!['.', 't', 'a', 'r', '.', 'b', 'z', '2']
}

pub open spec fn suffix_tar_xz() -> Seq<char> {
    seq!['.', 't', 'a', 'r', '.', 'x', 'z']
}

pub open spec fn suffix_tar_zst() -> Seq<char> {
    seq!['.', 't', 'a', 'r', '.', 'z', 's', 't']
}

/// Character index at which the extension of `s` begins.
pub open spec fn split_point(s: Seq<char>) -> int {
    if is_pure_dotfile(s) {
        0
    } else if matches_suffix(s, suffix_tar_gz()) {
        s.len() - 7
    } else if matches_suffix(s, suffix_tar_bz2()) {
        s.len() - 8
    } else if matches_suffix(s, suffix_tar_xz()) {
        s.len() - 7
    } else if matches_suffix(s, suffix_tar_zst()) {
        s.len() - 8
    } else if last_dot(s) >= 1 {
        last_dot(s)
    } else {
        s.len() as int
    }
}

/// The base part of `s`: everything before the extension.
pub open spec fn split_base(s: Seq<char>) -> Seq<char> {
    s.take(split_point(s))
}

/// The extension part of `s`: everything from the split point on.
pub open spec fn split_ext(s: Seq<char>) -> Seq<char> {
    s.skip(split_point(s))
}

/// The split point always lies within the name.
pub proof fn lemma_split_point_range(s: Seq<char>)
    ensures
        0 <= split_point(s) <= s.len(),
{
    lemma_last_dot(s);
}

/// Base and extension concatenate back to the original name.
pub proof fn lemma_split_round_trip(s: Seq<char>)
    ensures
        split_base(s) + split_ext(s) == s,
{
    lemma_split_point_range(s);
    assert(split_base(s) + split_ext(s) =~= s);
}

/// Find the index of the last dot of `v` past position zero, or `v.len()`
/// when there is none.
fn find_last_dot(v: &Vec<char>) -> (r: usize)
    ensures
        last_dot(v@) >= 1 ==> r == last_dot(v@),
        last_dot(v@) == -1 ==> r == v@.len(),
{
    proof {
        lemma_last_dot(v@);
    }
    let n = v.len();
    let mut j = n;
    while j > 1
        invariant
            j <= n == v@.len(),
            forall|i: int| j <= i < n && i >= 1 ==> v@[i] != '.',
        decreases j,
    {
        j = j - 1;
        if v[j] == '.' {
            proof {
                lemma_last_dot_unique(v@, j as int);
            }
            return j;
        }
    }
    proof {
        if last_dot(v@) >= 1 {
            assert(v@[last_dot(v@)] == '.');
        }
    }
    n
}

/// A dot with no later dot is what `last_dot` reports.
pub(crate) proof fn lemma_last_dot_unique(s: Seq<char>, k: int)
    requires
        1 <= k < s.len(),
        s[k] == '.',
        forall|i: int| k < i < s.len() ==> s[i] != '.',
    ensures
        last_dot(s) == k,
    decreases s.len(),
{
    if k == s.len() - 1 {
    } else {
        assert(s.last() != '.');
        assert forall|i: int| k < i < s.drop_last().len() implies s.drop_last()[i] != '.' by {
            assert(s.drop_last()[i] == s[i]);
        }
        lemma_last_dot_unique(s.drop_last(), k);
    }
}

/// Decide whether `v` ends with `suf` up to ASCII case.
fn ends_with_ci(v: &Vec<char>, suf: &Vec<char>) -> (r: bool)
    ensures
        r == matches_suffix(v@, suf@),
{
    let n = v.len();
    let m = suf.len();
    if n < m {
        return false;
    }
    let start = n - m;
    let mut i: usize = 0;
    while i < m
        invariant
            n == v@.len(),
            m == suf@.len(),
            m <= n,
            start == n - m,
            i <= m,
            forall|k: int| 0 <= k < i ==> lower_char(v@[start + k]) == suf@[k],
        decreases m - i,
    {
        if to_lower(v[start + i]) != suf[i] {
            return false;
        }
        i = i + 1;
    }
    true
}

/// Compute the character index at which the extension of `v` begins.
pub(crate) fn split_index(v: &Vec<char>) -> (k: usize)
    ensures
        k == split_point(v@),
        k <= v@.len(),
{
    proof {
        lemma_split_point_range(v@);
        lemma_last_dot(v@);
    }
    let n = v.len();
    let last = find_last_dot(v);
    let pure_dotfile = n > 0 && v[0] == '.' && last == n;
    if pure_dotfile {
        return 0;
    }
    let tar_gz: Vec<char> = vec!['.', 't', 'a', 'r', '.', 'g', 'z'];
    let tar_bz2: Vec<char> = vec!['.', 't', 'a', 'r', '.', 'b', 'z', '2'];
    let tar_xz: Vec<char> = vec!['.', 't', 'a', 'r', '.', 'x', 'z'];
    let tar_zst: Vec<char> = vec!['.', 't', 'a', 'r', '.', 'z', 's', 't'];
    proof {
        assert(tar_gz@ =~= suffix_tar_gz());
        assert(tar_bz2@ =~= suffix_tar_bz2());
        assert(tar_xz@ =~= suffix_tar_xz());
        assert(tar_zst@ =~= suffix_tar_zst());
        lemma_last_dot(v@);
    }
    if ends_with_ci(v, &tar_gz) {
        n - 7
    } else if ends_with_ci(v, &tar_bz2) {
        n - 8
    } else if ends_with_ci(v, &tar_xz) {
        n - 7
    } else if ends_with_ci(v, &tar_zst) {
        n - 8
    } else if last < n {
        last
    } else {
        n
    }
}

/// Split a filename into `(base, extension)`.
///
/// Dotfiles such as `.gitignore` are treated as having no base: the entire
/// name is the extension. Compound extensions split as one unit, and the
/// two parts always concatenate back to the input.
pub fn split_extension<'a>(filename: &'a str) -> (r: (&'a str, &'a str))
    ensures
        r.0@ == split_base(filename@),
        r.1@ == split_ext(filename@),
        r.0@ + r.1@ == filename@,
{
    let v = str_chars(filename);
    let k = split_index(&v);
    let n = v.len();
    let base = filename.substring_char(0, k);
    let ext = filename.substring_char(k, n);
    proof {
        assert(base@ =~= split_base(filename@));
        assert(ext@ =~= split_ext(filename@));
        lemma_split_round_trip(filename@);
    }
    (base, ext)
}

} // verus!
