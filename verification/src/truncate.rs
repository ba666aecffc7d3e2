//! Byte-budget truncation of a slug base.
//!
//! Given a base, an extension, and a byte budget, the base is cut so that
//! base and extension together never exceed the budget. The cut always
//! falls on a character boundary, and when a separator can be found inside
//! the kept prefix the cut moves back to it so no broken word ships.

use crate::chars::{byte_len, char_width, chars_to_string, copy_range, str_chars, width_of};
use vstd::prelude::*;

verus! {

/// The separators a truncation cut may move back to.
pub open spec fn is_sep_char(c: char) -> bool {
    c == '-' || c == '_'
}

/// Number of leading characters of `s` whose encodings together fit in
/// `budget` bytes.
pub open spec fn fit_chars(s: Seq<char>, budget: nat) -> nat
    decreases s.len(),
{
    if s.len() == 0 {
        0
    } else if char_width(s[0]) > budget {
        0
    } else {
        (1 + fit_chars(s.drop_first(), (budget - char_width(s[0])) as nat)) as nat
    }
}

/// The fitted prefix stays within the sequence and within the budget.
pub proof fn lemma_fit_chars(s: Seq<char>, budget: nat)
    ensures
        fit_chars(s, budget) <= s.len(),
        byte_len(s.take(fit_chars(s, budget) as int)) <= budget,
        byte_len(s) <= budget ==> fit_chars(s, budget) == s.len(),
    decreases s.len(),
{
    if s.len() == 0 {
        assert(s.take(0) =~= s);
    } else if char_width(s[0]) > budget {
        assert(s.take(0) =~= Seq::<char>::empty());
    } else {
        let rem = (budget - char_width(s[0])) as nat;
        lemma_fit_chars(s.drop_first(), rem);
        let k = fit_chars(s, budget) as int;
        assert(s.take(k).drop_first() =~= s.drop_first().take(k - 1));
        assert(byte_len(s.take(k)) == char_width(s[0]) + byte_len(s.drop_first().take(k - 1)));
    }
}

/// Index of the last separator character of `s`, or `-1` when none occurs.
pub open spec fn last_sep(s: Seq<char>) -> int
    decreases s.len(),
{
    if s.len() == 0 {
        -1
    } else if is_sep_char(s.last()) {
        s.len() - 1
    } else {
        last_sep(s.drop_last())
    }
}

/// `last_sep` stays in range, points at a separator when it reports one,
/// and nothing after it is a separator.
pub proof fn lemma_last_sep(s: Seq<char>)
    ensures
        -1 <= last_sep(s) < s.len(),
        last_sep(s) >= 0 ==> is_sep_char(s[last_sep(s)]),
        forall|i: int| last_sep(s) < i < s.len() ==> !is_sep_char(s[i]),
    decreases s.len(),
{
    if s.len() == 0 {
    } else if is_sep_char(s.last()) {
    } else {
        lemma_last_sep(s.drop_last());
        assert forall|i: int| last_sep(s) < i < s.len() implies !is_sep_char(s[i]) by {
            if i < s.len() - 1 {
                assert(s.drop_last()[i] == s[i]);
            }
        }
    }
}

/// A separator with no later separator is what `last_sep` reports.
proof fn lemma_last_sep_is(s: Seq<char>, k: int)
    requires
        0 <= k < s.len(),
        is_sep_char(s[k]),
        forall|i: int| k < i < s.len() ==> !is_sep_char(s[i]),
    ensures
        last_sep(s) == k,
    decreases s.len(),
{
    if k == s.len() - 1 {
    } else {
        assert(!is_sep_char(s.last()));
        assert forall|i: int| k < i < s.drop_last().len() implies !is_sep_char(
            s.drop_last()[i],
        ) by {
            assert(s.drop_last()[i] == s[i]);
        }
        lemma_last_sep_is(s.drop_last(), k);
    }
}

/// `base` truncated to fit in `budget` bytes, preferring a cut at the last
/// separator inside the kept prefix.
pub open spec fn truncate_to_budget(base: Seq<char>, budget: nat) -> Seq<char> {
    if byte_len(base) <= budget {
        base
    } else {
        let p = base.take(fit_chars(base, budget) as int);
        if last_sep(p) > 0 {
            p.take(last_sep(p))
        } else {
            p
        }
    }
}

/// `base` truncated so that it and `ext` together fit in `max` bytes.
pub open spec fn truncate_spec(base: Seq<char>, ext: Seq<char>, max: nat) -> Seq<char> {
    let budget = if byte_len(ext) > max {
        0
    } else {
        (max - byte_len(ext)) as nat
    };
    truncate_to_budget(base, budget)
}

/// The truncated base always fits in the budget.
pub proof fn lemma_truncate_fits(base: Seq<char>, budget: nat)
    ensures
        byte_len(truncate_to_budget(base, budget)) <= budget,
{
    if byte_len(base) <= budget {
    } else {
        lemma_fit_chars(base, budget);
        let p = base.take(fit_chars(base, budget) as int);
        lemma_last_sep(p);
        if last_sep(p) > 0 {
            crate::chars::lemma_byte_len_take_le(p, last_sep(p));
        }
    }
}

/// Decide whether the byte length of `v` is at most `budget`.
fn fits_within(v: &Vec<char>, budget: usize) -> (r: bool)
    ensures
        r == (byte_len(v@) <= budget),
{
    let n = v.len();
    let mut acc: usize = 0;
    let mut i: usize = 0;
    proof {
        assert(v@.take(0) =~= Seq::<char>::empty());
    }
    while i < n
        invariant
            n == v@.len(),
            i <= n,
            acc == byte_len(v@.take(i as int)),
            acc <= budget,
        ensures
            i <= n,
            acc == byte_len(v@.take(i as int)),
            acc <= budget,
            i < n ==> byte_len(v@.take(i + 1)) > budget,
        decreases n - i,
    {
        let w = width_of(v[i]);
        proof {
            crate::chars::lemma_byte_len_take_succ(v@, i as int);
        }
        if w > budget - acc {
            break ;
        }
        acc = acc + w;
        i = i + 1;
    }
    proof {
        assert(v@.take(n as int) =~= v@);
        if i < n {
            crate::chars::lemma_byte_len_take_le(v@, i + 1);
        }
    }
    i == v.len()
}

/// Compute the fitted-prefix length of `v` for `budget`.
fn fit_prefix(v: &Vec<char>, budget: usize) -> (k: usize)
    ensures
        k == fit_chars(v@, budget as nat),
        k <= v@.len(),
{
    let n = v.len();
    let mut k: usize = 0;
    let mut rem = budget;
    proof {
        assert(v@.skip(0) =~= v@);
    }
    while k < n
        invariant
            n == v@.len(),
            k <= n,
            rem <= budget,
            fit_chars(v@, budget as nat) == k + fit_chars(v@.skip(k as int), rem as nat),
        ensures
            k <= n,
            fit_chars(v@, budget as nat) == k,
        decreases n - k,
    {
        let w = width_of(v[k]);
        proof {
            assert(v@.skip(k as int)[0] == v@[k as int]);
            assert(v@.skip(k as int).drop_first() =~= v@.skip(k + 1));
        }
        if w > rem {
            proof {
                assert(fit_chars(v@.skip(k as int), rem as nat) == 0);
            }
            break ;
        }
        rem = rem - w;
        k = k + 1;
    }
    proof {
        if k == n {
            assert(v@.skip(n as int) =~= Seq::<char>::empty());
        }
    }
    k
}

/// Find the index of the last separator in `v`, or `v.len()` when none.
fn find_last_sep(v: &Vec<char>) -> (r: usize)
    ensures
        last_sep(v@) >= 0 ==> r == last_sep(v@),
        last_sep(v@) < 0 ==> r == v@.len(),
{
    proof {
        lemma_last_sep(v@);
    }
    let n = v.len();
    let mut j = n;
    while j > 0
        invariant
            j <= n == v@.len(),
            forall|i: int| j <= i < n ==> !is_sep_char(v@[i]),
        decreases j,
    {
        j = j - 1;
        let c = v[j];
        if c == '-' || c == '_' {
            proof {
                lemma_last_sep_is(v@, j as int);
            }
            return j;
        }
    }
    n
}

/// Truncate `v` to fit in `budget` bytes.
pub(crate) fn truncate_vec(v: &Vec<char>, budget: usize) -> (r: Vec<char>)
    ensures
        r@ == truncate_to_budget(v@, budget as nat),
{
    if fits_within(v, budget) {
        let r = copy_range(v, 0, v.len());
        proof {
            assert(r@ =~= v@);
        }
        return r;
    }
    let k = fit_prefix(v, budget);
    let p = copy_range(v, 0, k);
    let s = find_last_sep(&p);
    proof {
        lemma_last_sep(p@);
    }
    if s > 0 && s < p.len() {
        let r = copy_range(&p, 0, s);
        proof {
            assert(r@ =~= p@.take(last_sep(p@)));
        }
        r
    } else {
        proof {
            if s == 0 {
                assert(last_sep(p@) <= 0);
            }
        }
        p
    }
}

/// Truncate `base` so that `base + ext` fits within `max_bytes` bytes.
///
/// The base is returned unchanged when it already fits. Otherwise the cut
/// is made at a character boundary, and moved back to the last `-` or `_`
/// separator inside the kept prefix when one exists past the first
/// character.
pub fn truncate_base(base: &str, ext: &str, max_bytes: usize) -> (r: String)
    ensures
        r@ == truncate_spec(base@, ext@, max_bytes as nat),
{
    let bv = str_chars(base);
    let ev = str_chars(ext);
    let budget = ext_budget(&ev, max_bytes);
    let out = truncate_vec(&bv, budget);
    chars_to_string(&out)
}

/// Compute how many bytes remain for the base once `ext` is accounted for.
pub(crate) fn ext_budget(ev: &Vec<char>, max_bytes: usize) -> (budget: usize)
    ensures
        budget == (if byte_len(ev@) > max_bytes {
            0nat
        } else {
            (max_bytes - byte_len(ev@)) as nat
        }),
{
    if fits_within(ev, max_bytes) {
        let eb = byte_len_exact(ev, max_bytes);
        max_bytes - eb
    } else {
        0
    }
}

/// Compute the exact byte length of `v`, known to be at most `cap`.
fn byte_len_exact(v: &Vec<char>, cap: usize) -> (r: usize)
    requires
        byte_len(v@) <= cap,
    ensures
        r == byte_len(v@),
{
    let n = v.len();
    let mut acc: usize = 0;
    let mut i: usize = 0;
    proof {
        assert(v@.take(0) =~= Seq::<char>::empty());
    }
    while i < n
        invariant
            n == v@.len(),
            i <= n,
            acc == byte_len(v@.take(i as int)),
            byte_len(v@) <= cap,
        decreases n - i,
    {
        proof {
            crate::chars::lemma_byte_len_take_succ(v@, i as int);
            crate::chars::lemma_byte_len_take_le(v@, i + 1);
        }
        acc = acc + width_of(v[i]);
        i = i + 1;
    }
    proof {
        assert(v@.take(n as int) =~= v@);
    }
    acc
}

} // verus!
