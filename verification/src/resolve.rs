//! Collision-safe target resolution and rename planning.
//!
//! Resolution works against answers to collision probes rather than the
//! filesystem itself: the caller asks [`safe_target`] what to do, performs
//! the existence check it names, appends the answer, and asks again. The
//! candidate sequence is the target itself followed by `base-2.ext`
//! through `base-1001.ext` (or `ext-2` … for pure dotfiles), so
//! resolution is bounded at one thousand numbered candidates.

use crate::chars::{chars_to_string, copy_range, str_chars};
use crate::split::{split_base, split_ext, split_index};
use crate::words::push_all;
use vstd::prelude::*;

verus! {

/// Largest numbered suffix tried before resolution gives up.
pub const MAX_COLLISION_SUFFIX: u32 = 1000;

/// The decimal digit character for `n`, which must be below ten.
pub open spec fn digit_char(n: nat) -> char {
    (((n + 48) as u8) as char)
}

/// Decimal representation of `n`, most significant digit first.
pub open spec fn dec_rep(n: nat) -> Seq<char>
    decreases n,
{
    if n < 10 {
        seq![digit_char(n)]
    } else {
        dec_rep(n / 10).push(digit_char(n % 10))
    }
}

/// The `n`-th numbered candidate for a target name: the suffix `-n` goes
/// before the extension, or after the whole name when the base is empty.
pub open spec fn candidate_spec(target: Seq<char>, n: nat) -> Seq<char> {
    let base = split_base(target);
    let ext = split_ext(target);
    if base.len() == 0 {
        ext + seq!['-'] + dec_rep(n)
    } else {
        base + seq!['-'] + dec_rep(n) + ext
    }
}

/// The name tried at probe index `i`: the target itself first, then the
/// numbered candidates.
pub open spec fn tried_name(target: Seq<char>, i: int) -> Seq<char> {
    if i == 0 {
        target
    } else {
        candidate_spec(target, (i + 1) as nat)
    }
}

/// Index of the first `false` answer, or the length when all are `true`.
pub open spec fn first_free(answers: Seq<bool>) -> int
    decreases answers.len(),
{
    if answers.len() == 0 {
        0
    } else if !answers[0] {
        0
    } else {
        1 + first_free(answers.drop_first())
    }
}

/// `first_free` is the least index holding `false`.
pub proof fn lemma_first_free(answers: Seq<bool>)
    ensures
        0 <= first_free(answers) <= answers.len(),
        first_free(answers) < answers.len() ==> !answers[first_free(answers)],
        forall|i: int| 0 <= i < first_free(answers) ==> answers[i],
    decreases answers.len(),
{
    if answers.len() > 0 && answers[0] {
        lemma_first_free(answers.drop_first());
        assert forall|i: int| 0 <= i < first_free(answers) implies answers[i] by {
            if i > 0 {
                assert(answers.drop_first()[i - 1] == answers[i]);
            }
        }
    }
}

/// What collision resolution asks for or concludes.
#[derive(Debug)]
pub enum Resolution {
    /// Rename to this name; it does not collide.
    Use(String),
    /// Whether this name collides is not yet answered: check it and ask
    /// again with the answer appended.
    Probe(String),
    /// Every candidate collides.
    Exhausted,
}

/// The decimal digit for `d`, which must be below ten.
fn digit_of(d: u32) -> (r: char)
    requires
        d < 10,
    ensures
        r == digit_char(d as nat),
{
    ((48 + d as u8) as char)
}

/// Decimal digits of `n`, for the suffix range used by resolution.
fn dec_digits(n: u32) -> (r: Vec<char>)
    requires
        n <= 9999,
    ensures
        r@ == dec_rep(n as nat),
{
    let mut r: Vec<char> = Vec::new();
    if n >= 1000 {
        r.push(digit_of(n / 1000));
    }
    if n >= 100 {
        r.push(digit_of(n / 100 % 10));
    }
    if n >= 10 {
        r.push(digit_of(n / 10 % 10));
    }
    r.push(digit_of(n % 10));
    proof {
        let m = n as nat;
        if m < 10 {
            assert(r@ =~= dec_rep(m));
        } else if m < 100 {
            assert(dec_rep(m) == dec_rep(m / 10).push(digit_char(m % 10)));
            assert(r@ =~= dec_rep(m));
        } else if m < 1000 {
            assert(dec_rep(m) == dec_rep(m / 10).push(digit_char(m % 10)));
            assert(dec_rep(m / 10) == dec_rep(m / 10 / 10).push(digit_char(m / 10 % 10)));
            assert(m / 10 / 10 == m / 100) by (nonlinear_arith);
            assert(m / 10 / 10 < 10) by (nonlinear_arith)
                requires m < 1000;
            assert(r@ =~= dec_rep(m));
        } else {
            assert(dec_rep(m) == dec_rep(m / 10).push(digit_char(m % 10)));
            assert(dec_rep(m / 10) == dec_rep(m / 10 / 10).push(digit_char(m / 10 % 10)));
            assert(dec_rep(m / 10 / 10) == dec_rep(m / 10 / 10 / 10).push(
                digit_char(m / 10 / 10 % 10),
            ));
            assert(m / 10 / 10 == m / 100) by (nonlinear_arith);
            assert(m / 10 / 10 / 10 == m / 1000) by (nonlinear_arith);
            assert(m / 100 % 10 == m / 10 / 10 % 10) by (nonlinear_arith);
            assert(m / 1000 < 10) by (nonlinear_arith)
                requires m <= 9999;
            assert(r@ =~= dec_rep(m));
        }
    }
    r
}

/// Build the `n`-th numbered candidate name for `target`.
pub fn candidate_name(target: &str, n: u32) -> (r: String)
    requires
        2 <= n <= MAX_COLLISION_SUFFIX + 1,
    ensures
        r@ == candidate_spec(target@, n as nat),
{
    let v = str_chars(target);
    let k = split_index(&v);
    let len = v.len();
    let basev = copy_range(&v, 0, k);
    let extv = copy_range(&v, k, len);
    proof {
        assert(basev@ =~= split_base(target@));
        assert(extv@ =~= split_ext(target@));
    }
    let digits = dec_digits(n);
    let mut out: Vec<char> = Vec::new();
    if basev.len() == 0 {
        push_all(&mut out, &extv);
        out.push('-');
        push_all(&mut out, &digits);
        proof {
            assert(out@ =~= candidate_spec(target@, n as nat));
        }
    } else {
        push_all(&mut out, &basev);
        out.push('-');
        push_all(&mut out, &digits);
        push_all(&mut out, &extv);
        proof {
            assert(out@ =~= candidate_spec(target@, n as nat));
        }
    }
    chars_to_string(&out)
}

/// Resolve a target against the collision answers gathered so far.
///
/// `collisions[i]` answers whether the name tried at index `i` collides:
/// index `0` is the target itself, index `i >= 1` the candidate numbered
/// `i + 1`. With no-clobber off the target is used as it stands. The
/// result either uses the first non-colliding name, asks for the one
/// answer that is still missing, or reports every candidate taken.
pub fn safe_target(target: &str, no_clobber: bool, collisions: &Vec<bool>) -> (r: Resolution)
    requires
        collisions@.len() <= MAX_COLLISION_SUFFIX + 1,
    ensures
        !no_clobber ==> (r matches Resolution::Use(t) && t@ == target@),
        no_clobber ==> {
            let free = first_free(collisions@);
            if free < collisions@.len() {
                r matches Resolution::Use(t) && t@ == tried_name(target@, free)
            } else if collisions@.len() < MAX_COLLISION_SUFFIX + 1 {
                r matches Resolution::Probe(t) && t@ == tried_name(target@, collisions@.len() as int)
            } else {
                r is Exhausted
            }
        },
{
    proof {
        lemma_first_free(collisions@);
    }
    if !no_clobber {
        return Resolution::Use(target.to_owned());
    }
    let n = collisions.len();
    let mut i: usize = 0;
    while i < n
        invariant
            no_clobber,
            n == collisions@.len(),
            n as int <= MAX_COLLISION_SUFFIX as int + 1,
            i <= n,
            forall|k: int| 0 <= k < i ==> collisions@[k],
        decreases n - i,
    {
        if !collisions[i] {
            proof {
                lemma_first_free_is(collisions@, i as int);
            }
            if i == 0 {
                return Resolution::Use(target.to_owned());
            }
            return Resolution::Use(candidate_name(target, (i + 1) as u32));
        }
        i = i + 1;
    }
    proof {
        lemma_first_free_all(collisions@);
    }
    if n < (MAX_COLLISION_SUFFIX + 1) as usize {
        if n == 0 {
            return Resolution::Probe(target.to_owned());
        }
        return Resolution::Probe(candidate_name(target, (n + 1) as u32));
    }
    Resolution::Exhausted
}

/// The least `false` index is what `first_free` reports.
proof fn lemma_first_free_is(answers: Seq<bool>, k: int)
    requires
        0 <= k < answers.len(),
        !answers[k],
        forall|i: int| 0 <= i < k ==> answers[i],
    ensures
        first_free(answers) == k,
    decreases answers.len(),
{
    if k > 0 {
        assert forall|i: int| 0 <= i < k - 1 implies answers.drop_first()[i] by {
            assert(answers.drop_first()[i] == answers[i + 1]);
        }
        assert(answers.drop_first()[k - 1] == answers[k]);
        lemma_first_free_is(answers.drop_first(), k - 1);
    }
}

/// With every answer `true`, `first_free` reports the length.
proof fn lemma_first_free_all(answers: Seq<bool>)
    requires
        forall|i: int| 0 <= i < answers.len() ==> answers[i],
    ensures
        first_free(answers) == answers.len(),
    decreases answers.len(),
{
    if answers.len() > 0 {
        assert forall|i: int| 0 <= i < answers.drop_first().len() implies answers.drop_first()[i] by {
            assert(answers.drop_first()[i] == answers[i + 1]);
        }
        lemma_first_free_all(answers.drop_first());
    }
}

/// The result of a rename operation.
#[derive(Debug)]
pub enum RenameResult {
    /// The entry was renamed from one path to the other.
    Renamed { from: String, to: String },
    /// The name was already clean; nothing was done.
    Skipped(String),
    /// The rename failed, with the failing path and the cause.
    Failed { path: String, error: String },
}

/// How a single rename should proceed.
#[derive(Debug, PartialEq, Eq, Structural)]
pub enum RenamePlan {
    /// Source and target are the same path: nothing to do.
    Skip,
    /// Source and target denote the same file on disk (a case-only
    /// rename): use the target without collision resolution.
    UseTarget,
    /// Run collision resolution before renaming.
    Resolve,
}

/// Decide whether two strings hold the same characters.
pub fn str_eq(a: &str, b: &str) -> (r: bool)
    ensures
        r == (a@ == b@),
{
    let av = str_chars(a);
    let bv = str_chars(b);
    let n = av.len();
    if n != bv.len() {
        return false;
    }
    let mut i: usize = 0;
    while i < n
        invariant
            av@ == a@,
            bv@ == b@,
            n == av@.len() == bv@.len(),
            i <= n,
            forall|k: int| 0 <= k < i ==> av@[k] == bv@[k],
        decreases n - i,
    {
        if av[i] != bv[i] {
            return false;
        }
        i = i + 1;
    }
    proof {
        assert(a@ =~= b@);
    }
    true
}

/// Decide how to rename `source` to `target`, given whether the two paths
/// denote the same file on disk.
pub fn plan_rename(source: &str, target: &str, same_file: bool) -> (r: RenamePlan)
    ensures
        (r == RenamePlan::Skip) == (source@ == target@),
        (r == RenamePlan::UseTarget) == (source@ != target@ && same_file),
        (r == RenamePlan::Resolve) == (source@ != target@ && !same_file),
{
    if str_eq(source, target) {
        RenamePlan::Skip
    } else if same_file {
        RenamePlan::UseTarget
    } else {
        RenamePlan::Resolve
    }
}

/// Decide whether a slug may serve as a filename: it must be nonempty and
/// must not alias the current or parent directory.
pub fn is_valid_slug(name: &str) -> (r: bool)
    ensures
        r == (name@.len() > 0 && name@ != seq!['.'] && name@ != seq!['.', '.']),
{
    let v = str_chars(name);
    let n = v.len();
    if n == 0 {
        return false;
    }
    if n == 1 && v[0] == '.' {
        proof {
            assert(name@ =~= seq!['.']);
        }
        return false;
    }
    if n == 2 && v[0] == '.' && v[1] == '.' {
        proof {
            assert(name@ =~= seq!['.', '.']);
        }
        return false;
    }
    proof {
        assert(name@ != seq!['.']);
        assert(name@ != seq!['.', '.']);
    }
    true
}

} // verus!
