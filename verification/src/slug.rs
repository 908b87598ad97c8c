//! The slugifier: turns an arbitrary Unicode title into a branch-safe
//! identifier of ASCII lowercase alphanumerics, underscores and hyphens.
//!
//! The pipeline trims the input, applies Unicode canonical decomposition so
//! that accented letters split into a base letter and combining marks, maps
//! whitespace to hyphens, drops everything that is not ASCII alphanumeric,
//! underscore or hyphen, lowercases, and collapses runs of hyphens.

use vstd::prelude::*;

use crate::text::{
    all_ws,
    drop_leading_ws,
    drop_trailing_ws,
    is_unicode_ws,
    is_whitespace_char,
    lemma_trim_pad,
    push_char,
    trim_spec,
    trim_str,
};

verus! {

/// A character the slugifier may emit: ASCII lowercase alphanumeric,
/// underscore or hyphen.
pub open spec fn is_slug_char(c: char) -> bool {
    let u = c as u32;
    (0x61 <= u && u <= 0x7A) || (0x30 <= u && u <= 0x39) || c == '_' || c == '-'
}

/// A character that survives the slugifier's filter: ASCII alphanumeric of
/// either case, underscore or hyphen.
pub open spec fn is_keep_char(c: char) -> bool {
    let u = c as u32;
    (0x30 <= u && u <= 0x39) || (0x41 <= u && u <= 0x5A) || (0x61 <= u && u <= 0x7A) || c == '_'
        || c == '-'
}

/// Whitespace becomes a hyphen; everything else passes through.
pub open spec fn ws_to_hyphen(c: char) -> char {
    if is_unicode_ws(c) {
        '-'
    } else {
        c
    }
}

/// ASCII uppercase letters become lowercase; everything else passes through.
pub open spec fn lower_char(c: char) -> char {
    let u = c as u32;
    if 0x41 <= u && u <= 0x5A {
        ((u + 0x20) as u8) as char
    } else {
        c
    }
}

/// What the decomposed text looks like after mapping whitespace to hyphens,
/// filtering to the kept character class, and lowercasing — everything of the
/// slug pipeline except hyphen collapsing.
pub open spec fn slug_core(s: Seq<char>) -> Seq<char>
    decreases s.len(),
{
    if s.len() == 0 {
        Seq::empty()
    } else {
        let rest = slug_core(s.drop_last());
        let m = ws_to_hyphen(s.last());
        if is_keep_char(m) {
            rest.push(lower_char(m))
        } else {
            rest
        }
    }
}

/// Collapses every run of consecutive hyphens to a single hyphen: a hyphen is
/// dropped exactly when the character before it is also a hyphen.
pub open spec fn collapse_hyphens(s: Seq<char>) -> Seq<char>
    decreases s.len(),
{
    if s.len() == 0 {
        Seq::empty()
    } else {
        let rest = collapse_hyphens(s.drop_last());
        if s.last() == '-' && s.len() >= 2 && s[s.len() - 2] == '-' {
            rest
        } else {
            rest.push(s.last())
        }
    }
}

/// Every character of `s` is one the slugifier may emit.
pub open spec fn all_slug_chars(s: Seq<char>) -> bool {
    forall|i: int| 0 <= i < s.len() ==> is_slug_char(#[trigger] s[i])
}

/// No two consecutive characters of `s` are both hyphens.
pub open spec fn no_adjacent_hyphens(s: Seq<char>) -> bool {
    forall|i: int| 0 <= i && i + 1 < s.len() ==> !(#[trigger] s[i] == '-' && s[i + 1] == '-')
}

/// A character in the ASCII range.
pub open spec fn is_ascii_char(c: char) -> bool {
    let u = c as u32;
    u < 0x80
}

/// Every character of `s` lies in the ASCII range.
pub open spec fn all_ascii(s: Seq<char>) -> bool {
    forall|i: int| 0 <= i < s.len() ==> is_ascii_char(#[trigger] s[i])
}

/// The result of Unicode canonical decomposition (Normalization Form D) of a
/// character sequence.
pub uninterp spec fn nfd_of(s: Seq<char>) -> Seq<char>;

/// Relies on unicode_normalization's `nfd`: Unicode canonical decomposition
/// (Normalization Form D) per Unicode Standard Annex #15, a function of the
/// characters alone. The annex states that text containing only ASCII
/// characters is left unaffected by all normalization forms; in particular an
/// empty text stays empty.
#[verifier::external_body]
fn nfd_str(s: &str) -> (r: String)
    ensures
        r@ == nfd_of(s@),
        all_ascii(s@) ==> r@ == s@,
        s@.len() == 0 ==> r@.len() == 0,
{
    unicode_normalization::UnicodeNormalization::nfd(s).collect()
}

/// The slug of a text: trim, decompose, map whitespace to hyphens, filter,
/// lowercase, collapse hyphen runs.
pub open spec fn slug_of(s: Seq<char>) -> Seq<char> {
    collapse_hyphens(slug_core(nfd_of(trim_spec(s))))
}

/// Normalizes free text into a canonical lowercase, hyphen-separated
/// identifier. Total: every input, the empty string included, yields a
/// (possibly empty) valid identifier. Idempotent: an input that is already a
/// valid slug comes back unchanged.
pub fn slugify(s: &str) -> (r: String)
    ensures
        r@ == slug_of(s@),
        all_slug_chars(s@) && no_adjacent_hyphens(s@) ==> r@ == s@,
{
    let trimmed = trim_str(s);
    let normalized = nfd_str(trimmed);
    let norm = normalized.as_str();
    let m = norm.unicode_len();
    let mut out = String::new();
    let mut prev_hyphen: bool = false;
    let mut i: usize = 0;
    while i < m
        invariant
            m == norm@.len(),
            norm@ == nfd_of(trim_spec(s@)),
            0 <= i <= m,
            out@ == collapse_hyphens(slug_core(norm@.take(i as int))),
            prev_hyphen == (slug_core(norm@.take(i as int)).len() > 0 && slug_core(
                norm@.take(i as int),
            ).last() == '-'),
        decreases m - i,
    {
        let ghost t0 = norm@.take(i as int);
        let ghost t1 = norm@.take(i as int + 1);
        let c = norm.get_char(i);
        let mapped = if is_whitespace_char(c) {
            '-'
        } else {
            c
        };
        let mu = mapped as u32;
        let keep = (0x30 <= mu && mu <= 0x39) || (0x41 <= mu && mu <= 0x5A) || (0x61 <= mu && mu
            <= 0x7A) || mapped == '_' || mapped == '-';
        proof {
            assert(t1.drop_last() =~= t0);
            assert(t1.last() == c);
            assert(mapped == ws_to_hyphen(c));
            assert(keep == is_keep_char(mapped));
        }
        if keep {
            let lowered = if 0x41 <= mu && mu <= 0x5A {
                ((mu + 0x20) as u8) as char
            } else {
                mapped
            };
            proof {
                assert(lowered == lower_char(mapped));
                assert((lowered == '-') == (mapped == '-'));
                assert(slug_core(t1) =~= slug_core(t0).push(lowered));
                assert(slug_core(t1).drop_last() =~= slug_core(t0));
            }
            if !(mapped == '-' && prev_hyphen) {
                proof {
                    assert(collapse_hyphens(slug_core(t1)) =~= collapse_hyphens(slug_core(t0)).push(
                        lowered,
                    ));
                }
                push_char(&mut out, lowered);
            } else {
                proof {
                    assert(slug_core(t0).last() == '-');
                    assert(collapse_hyphens(slug_core(t1)) =~= collapse_hyphens(slug_core(t0)));
                }
            }
            prev_hyphen = mapped == '-';
        } else {
            proof {
                assert(slug_core(t1) =~= slug_core(t0));
            }
        }
        i = i + 1;
    }
    proof {
        assert(norm@.take(m as int) =~= norm@);
        if all_slug_chars(s@) && no_adjacent_hyphens(s@) {
            if s@.len() > 0 {
                assert(is_slug_char(s@[0]));
                assert(is_slug_char(s@.last()));
            }
            assert(drop_leading_ws(s@) == s@);
            assert(drop_trailing_ws(s@) == s@);
            assert(trimmed@ == s@);
            assert forall|i: int| 0 <= i < trimmed@.len() implies is_ascii_char(
                #[trigger] trimmed@[i],
            ) by {
                assert(is_slug_char(s@[i]));
            }
            assert(norm@ == s@);
            lemma_slug_core_identity(s@);
            lemma_collapse_identity(s@);
        }
    }
    out
}

proof fn lemma_slug_core_identity(t: Seq<char>)
    requires
        all_slug_chars(t),
    ensures
        slug_core(t) == t,
    decreases t.len(),
{
    if t.len() > 0 {
        assert(all_slug_chars(t.drop_last()));
        lemma_slug_core_identity(t.drop_last());
        assert(is_slug_char(t.last()));
        assert(ws_to_hyphen(t.last()) == t.last());
        assert(lower_char(t.last()) == t.last());
        assert(t.drop_last().push(t.last()) =~= t);
    } else {
        assert(t =~= Seq::<char>::empty());
    }
}

proof fn lemma_collapse_identity(t: Seq<char>)
    requires
        no_adjacent_hyphens(t),
    ensures
        collapse_hyphens(t) == t,
    decreases t.len(),
{
    if t.len() > 0 {
        assert forall|i: int|
            0 <= i && i + 1 < t.drop_last().len() implies !(#[trigger] t.drop_last()[i] == '-'
            && t.drop_last()[i + 1] == '-') by {
            assert(t.drop_last()[i] == t[i]);
            assert(t.drop_last()[i + 1] == t[i + 1]);
        }
        lemma_collapse_identity(t.drop_last());
        if t.last() == '-' && t.len() >= 2 && t[t.len() - 2] == '-' {
            assert(!(t[t.len() - 2] == '-' && t[t.len() - 1] == '-'));
        }
        assert(t.drop_last().push(t.last()) =~= t);
    } else {
        assert(t =~= Seq::<char>::empty());
    }
}

proof fn lemma_slug_core_charset(s: Seq<char>)
    ensures
        all_slug_chars(slug_core(s)),
    decreases s.len(),
{
    if s.len() > 0 {
        lemma_slug_core_charset(s.drop_last());
    }
}

proof fn lemma_collapse_charset(s: Seq<char>)
    requires
        all_slug_chars(s),
    ensures
        all_slug_chars(collapse_hyphens(s)),
    decreases s.len(),
{
    if s.len() > 0 {
        assert(all_slug_chars(s.drop_last()));
        lemma_collapse_charset(s.drop_last());
    }
}

proof fn lemma_collapse_no_adjacent(s: Seq<char>)
    ensures
        no_adjacent_hyphens(collapse_hyphens(s)),
        collapse_hyphens(s).len() > 0 && collapse_hyphens(s).last() == '-' ==> s.len() > 0
            && s.last() == '-',
    decreases s.len(),
{
    if s.len() > 0 {
        lemma_collapse_no_adjacent(s.drop_last());
    }
}

/// Law: every slug consists only of ASCII lowercase alphanumerics,
/// underscores and hyphens, and never holds two hyphens in a row.
pub proof fn lemma_slug_charset(s: Seq<char>)
    ensures
        all_slug_chars(slug_of(s)),
        no_adjacent_hyphens(slug_of(s)),
{
    let core = slug_core(nfd_of(trim_spec(s)));
    lemma_slug_core_charset(nfd_of(trim_spec(s)));
    lemma_collapse_charset(core);
    lemma_collapse_no_adjacent(core);
}

/// Law: whitespace padding around the input leaves the slug unchanged, so
/// edge whitespace never turns into leading or trailing hyphens.
pub proof fn lemma_slug_ignores_edge_ws(w1: Seq<char>, s: Seq<char>, w2: Seq<char>)
    requires
        all_ws(w1),
        all_ws(w2),
    ensures
        slug_of(w1 + s + w2) == slug_of(s),
{
    lemma_trim_pad(w1, s, w2);
}

} // verus!
