//! The slug pipeline: extension-aware splitting, transliteration, bracket
//! stripping, version-dot protection, word segmentation, casing, joining,
//! version restoration, and byte-budget truncation.

use crate::chars::{chars_to_string, copy_range, str_chars};
use crate::split::{split_base, split_ext, split_index, split_point};
use crate::truncate::{ext_budget, truncate_spec, truncate_to_budget, truncate_vec};
use crate::unicode::{ascii_of, transliterate};
use crate::version::{protect_chars, protect_spec, restore_chars, restore_spec};
use crate::words::{join, join_spec, lower_words, lowercase_all, push_all, segment, words_spec};
use crate::{SlugifyOptions, MAX_FILENAME_BYTES};
use vstd::prelude::*;

verus! {

/// The bracket characters that are replaced by spaces, keeping their
/// contents as words.
pub open spec fn is_bracket(c: char) -> bool {
    c == '(' || c == ')' || c == '[' || c == ']' || c == '{' || c == '}'
}

/// `s` with every bracket character replaced by a space.
pub open spec fn debracket_spec(s: Seq<char>) -> Seq<char> {
    Seq::new(
        s.len(),
        |i: int|
            if is_bracket(s[i]) {
                ' '
            } else {
                s[i]
            },
    )
}

/// The text to segment, when `keep` preserves Unicode or transliterates.
pub open spec fn translit_spec(s: Seq<char>, keep: bool) -> Seq<char> {
    if keep {
        s
    } else {
        ascii_of(s)
    }
}

/// The words a base yields: transliterated, bracket-stripped, version-dot
/// protected, and segmented.
pub open spec fn base_words(base: Seq<char>, o: SlugifyOptions) -> Seq<Seq<char>> {
    words_spec(protect_spec(debracket_spec(translit_spec(base, o.keep_unicode))), o.keep_unicode)
}

/// The joined, lowercased, version-restored form of a nonempty word list.
pub open spec fn joined_words(ws: Seq<Seq<char>>, o: SlugifyOptions) -> Seq<char> {
    restore_spec(join_spec(lower_words(ws, o.keep_unicode), o.style, o.keep_unicode))
}

/// The finished base of a filename slug, before truncation: the joined
/// words, with the leading dot restored for a dotfile that carries an
/// extension.
pub open spec fn slug_base_spec(f: Seq<char>, o: SlugifyOptions) -> Seq<char> {
    let base = split_base(f);
    let j = joined_words(base_words(base, o), o);
    if base[0] == '.' {
        seq!['.'] + j
    } else {
        j
    }
}

/// The slug of a filename.
///
/// A name with an empty base (the empty name, a dotfile, a bare compound
/// extension) passes through unchanged. A base that yields no words leaves
/// only the extension. Otherwise the joined words, re-prefixed with a dot
/// for dotfiles carrying an extension, are truncated so that together with
/// the extension they stay within [`crate::MAX_FILENAME_BYTES`] bytes.
pub open spec fn slug_spec(f: Seq<char>, o: SlugifyOptions) -> Seq<char> {
    let base = split_base(f);
    let ext = split_ext(f);
    if base.len() == 0 {
        f
    } else {
        let ws = base_words(base, o);
        if ws.len() == 0 {
            ext
        } else {
            truncate_spec(slug_base_spec(f, o), ext, MAX_FILENAME_BYTES as nat) + ext
        }
    }
}

/// The slug of a plain text: the whole input is the base, and no
/// extension budget is reserved.
pub open spec fn slug_string_spec(s: Seq<char>, o: SlugifyOptions) -> Seq<char> {
    if s.len() == 0 {
        s
    } else {
        let ws = base_words(s, o);
        if ws.len() == 0 {
            Seq::empty()
        } else {
            truncate_to_budget(joined_words(ws, o), MAX_FILENAME_BYTES as nat)
        }
    }
}

/// Replace every bracket character in `v` with a space.
fn debracket(v: &Vec<char>) -> (out: Vec<char>)
    ensures
        out@ == debracket_spec(v@),
{
    let n = v.len();
    let mut out: Vec<char> = Vec::new();
    let mut i: usize = 0;
    while i < n
        invariant
            n == v@.len(),
            i <= n,
            out@ == debracket_spec(v@).take(i as int),
        decreases n - i,
    {
        let c = v[i];
        if c == '(' || c == ')' || c == '[' || c == ']' || c == '{' || c == '}' {
            out.push(' ');
        } else {
            out.push(c);
        }
        proof {
            assert(out@ =~= debracket_spec(v@).take(i + 1));
        }
        i = i + 1;
    }
    proof {
        assert(debracket_spec(v@).take(n as int) =~= debracket_spec(v@));
    }
    out
}

/// Compute the word list of a base, and the joined slug text of it.
fn base_pipeline(basev: Vec<char>, options: &SlugifyOptions) -> (r: (Vec<Vec<char>>, Vec<char>))
    ensures
        r.0.deep_view() == base_words(basev@, *options),
        r.1@ == joined_words(base_words(basev@, *options), *options),
{
    let t = if options.keep_unicode {
        basev
    } else {
        transliterate(&basev)
    };
    let b = debracket(&t);
    let p = protect_chars(&b);
    let ws = segment(&p, options.keep_unicode);
    let lw = lowercase_all(&ws, options.keep_unicode);
    let j = join(&lw, options.style, options.keep_unicode);
    let rj = restore_chars(&j);
    (ws, rj)
}

/// Slugify a filename according to the given options.
///
/// Converts a filename to a clean, shell-safe slug while preserving its
/// extension, dotfile status, and any embedded version numbers. Names
/// whose slug would exceed 255 bytes are truncated at a word boundary
/// where possible.
pub fn slugify(filename: &str, options: &SlugifyOptions) -> (r: String)
    ensures
        r@ == slug_spec(filename@, *options),
{
    let v = str_chars(filename);
    let k = split_index(&v);
    if k == 0 {
        proof {
            assert(split_base(v@) =~= Seq::<char>::empty());
        }
        return filename.to_owned();
    }
    let n = v.len();
    let basev = copy_range(&v, 0, k);
    let extv = copy_range(&v, k, n);
    proof {
        assert(basev@ =~= split_base(v@));
        assert(extv@ =~= split_ext(v@));
    }
    let is_dotfile = basev[0] == '.';
    let ghost base_seq = basev@;
    let (ws, rj) = base_pipeline(basev, options);
    if ws.len() == 0 {
        proof {
            assert(base_words(base_seq, *options).len() == 0);
        }
        return chars_to_string(&extv);
    }
    let mut d: Vec<char> = Vec::new();
    if is_dotfile {
        d.push('.');
    }
    push_all(&mut d, &rj);
    proof {
        if is_dotfile {
            assert(d@ =~= seq!['.'] + joined_words(base_words(base_seq, *options), *options));
        } else {
            assert(d@ =~= joined_words(base_words(base_seq, *options), *options));
        }
    }
    let budget = ext_budget(&extv, MAX_FILENAME_BYTES);
    let mut out = truncate_vec(&d, budget);
    push_all(&mut out, &extv);
    chars_to_string(&out)
}

/// Slugify an arbitrary string rather than a filename.
///
/// The whole input is treated as plain text: no extension splitting and
/// no dotfile preservation.
pub fn slugify_string(input: &str, options: &SlugifyOptions) -> (r: String)
    ensures
        r@ == slug_string_spec(input@, *options),
{
    let v = str_chars(input);
    if v.len() == 0 {
        return String::new();
    }
    let ghost base_seq = v@;
    let (ws, rj) = base_pipeline(v, options);
    if ws.len() == 0 {
        proof {
            assert(base_words(base_seq, *options).len() == 0);
        }
        return String::new();
    }
    let out = truncate_vec(&rj, MAX_FILENAME_BYTES);
    chars_to_string(&out)
}

} // verus!
