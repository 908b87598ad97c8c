//! The name-list parser: extracts an ordered list of names from free text
//! that intermixes names with parenthetical annotations.
//!
//! Every parenthesized substring — non-greedy and non-nested, never spanning
//! a line break — is replaced by a comma; the text is then split on commas,
//! each piece trimmed, and empty pieces dropped. Nested or unbalanced
//! parentheses get no special handling: an opening parenthesis with no close
//! on its line stays literal.

use vstd::prelude::*;

use crate::text::{find_char, is_unicode_ws, lemma_find_char, push_char, trim_spec, trim_str};

verus! {

/// The position of the first `)` at or after `i`, unless a line break comes
/// first: the non-greedy match for a parenthesized annotation.
pub open spec fn find_close(s: Seq<char>, i: int) -> Option<int>
    decreases s.len() - i,
{
    if i < 0 || i >= s.len() {
        None
    } else if s[i] == ')' {
        Some(i)
    } else if s[i] == '\n' {
        None
    } else {
        find_close(s, i + 1)
    }
}

/// A found closing parenthesis lies between the search start and the end of
/// the text.
pub proof fn lemma_find_close_bounds(s: Seq<char>, i: int)
    requires
        0 <= i,
    ensures
        find_close(s, i) is Some ==> i <= find_close(s, i)->Some_0 < s.len(),
    decreases s.len() - i,
{
    if i < s.len() && s[i] != ')' && s[i] != '\n' {
        lemma_find_close_bounds(s, i + 1);
    }
}

/// A scan that saw neither `)` nor a line break before `k` pins down
/// `find_close`.
pub proof fn lemma_find_close_scan(s: Seq<char>, i: int, k: int)
    requires
        0 <= i <= k <= s.len(),
        forall|m: int| i <= m < k ==> s[m] != ')' && #[trigger] s[m] != '\n',
        k < s.len() ==> s[k] == ')' || s[k] == '\n',
    ensures
        find_close(s, i) == if k < s.len() && s[k] == ')' {
            Some(k)
        } else {
            None::<int>
        },
    decreases k - i,
{
    if i < k {
        lemma_find_close_scan(s, i + 1, k);
    }
}

/// The text from position `i` on, with every parenthesized substring
/// replaced by a comma.
pub open spec fn replace_parens_from(s: Seq<char>, i: int) -> Seq<char>
    decreases s.len() - i,
    via replace_parens_from_dec
{
    if i < 0 || i >= s.len() {
        Seq::empty()
    } else if s[i] == '(' && find_close(s, i + 1) is Some {
        let j = find_close(s, i + 1)->Some_0;
        seq![','] + replace_parens_from(s, j + 1)
    } else {
        seq![s[i]] + replace_parens_from(s, i + 1)
    }
}

#[via_fn]
proof fn replace_parens_from_dec(s: Seq<char>, i: int) {
    if !(i < 0 || i >= s.len()) && s[i] == '(' && find_close(s, i + 1) is Some {
        lemma_find_close_bounds(s, i + 1);
    }
}

/// The comma-separated pieces of `s`, trimmed, with empty pieces dropped.
pub open spec fn names_from(s: Seq<char>) -> Seq<Seq<char>>
    decreases s.len(),
    via names_from_dec
{
    match find_char(s, ',', 0) {
        Some(j) => {
            let piece = trim_spec(s.subrange(0, j));
            let rest = names_from(s.subrange(j + 1, s.len() as int));
            if piece.len() > 0 {
                seq![piece] + rest
            } else {
                rest
            }
        },
        None => {
            let piece = trim_spec(s);
            if piece.len() > 0 {
                seq![piece]
            } else {
                Seq::empty()
            }
        },
    }
}

#[via_fn]
proof fn names_from_dec(s: Seq<char>) {
    crate::text::lemma_find_char_bounds(s, ',', 0);
}

/// What `parse_name_list` returns: parenthesized annotations become commas,
/// then the text splits on commas into trimmed, non-empty names.
pub open spec fn name_list_spec(s: Seq<char>) -> Seq<Seq<char>> {
    names_from(replace_parens_from(s, 0))
}

proof fn lemma_names_from_tight(s: Seq<char>)
    ensures
        forall|i: int|
            0 <= i < names_from(s).len() ==> (#[trigger] names_from(s)[i].len() > 0
                && !is_unicode_ws(names_from(s)[i][0]) && !is_unicode_ws(names_from(s)[i].last())),
    decreases s.len(),
{
    crate::text::lemma_find_char_bounds(s, ',', 0);
    match find_char(s, ',', 0) {
        Some(j) => {
            crate::text::lemma_trim_spec_tight(s.subrange(0, j));
            lemma_names_from_tight(s.subrange(j + 1, s.len() as int));
            let piece = trim_spec(s.subrange(0, j));
            let rest = names_from(s.subrange(j + 1, s.len() as int));
            if piece.len() > 0 {
                assert forall|i: int|
                    0 <= i < names_from(s).len() implies (#[trigger] names_from(s)[i].len() > 0
                    && !is_unicode_ws(names_from(s)[i][0]) && !is_unicode_ws(
                    names_from(s)[i].last(),
                )) by {
                    if i == 0 {
                        assert(names_from(s)[i] == piece);
                    } else {
                        assert(names_from(s)[i] == rest[i - 1]);
                    }
                }
            }
        },
        None => {
            crate::text::lemma_trim_spec_tight(s);
        },
    }
}

/// Law: no parsed name is empty, and none starts or ends with whitespace.
pub proof fn lemma_names_nonempty_trimmed(s: Seq<char>)
    ensures
        forall|i: int|
            0 <= i < name_list_spec(s).len() ==> (#[trigger] name_list_spec(s)[i].len() > 0
                && !is_unicode_ws(name_list_spec(s)[i][0]) && !is_unicode_ws(
                name_list_spec(s)[i].last(),
            )),
{
    lemma_names_from_tight(replace_parens_from(s, 0));
}

/// Finds the closing parenthesis of an annotation opened before `start`, if
/// its line holds one.
fn find_close_str(text: &str, start: usize) -> (r: Option<usize>)
    requires
        start <= text@.len(),
    ensures
        match r {
            Some(j) => find_close(text@, start as int) == Some(j as int) && start <= j
                < text@.len(),
            None => find_close(text@, start as int) is None,
        },
{
    let n = text.unicode_len();
    let mut j = start;
    while j < n
        invariant
            n == text@.len(),
            start <= j <= n,
            forall|m: int| start <= m < j ==> text@[m] != ')' && #[trigger] text@[m] != '\n',
        decreases n - j,
    {
        let d = text.get_char(j);
        if d == ')' {
            proof {
                lemma_find_close_scan(text@, start as int, j as int);
            }
            return Some(j);
        }
        if d == '\n' {
            proof {
                lemma_find_close_scan(text@, start as int, j as int);
            }
            return None;
        }
        j = j + 1;
    }
    proof {
        lemma_find_close_scan(text@, start as int, n as int);
    }
    None
}

/// Replaces every parenthesized substring with a comma.
fn replace_parens_str(text: &str) -> (r: String)
    ensures
        r@ == replace_parens_from(text@, 0),
{
    let n = text.unicode_len();
    let mut out = String::new();
    let mut i: usize = 0;
    proof {
        assert(Seq::<char>::empty() + replace_parens_from(text@, 0) =~= replace_parens_from(
            text@,
            0,
        ));
    }
    while i < n
        invariant
            n == text@.len(),
            0 <= i <= n,
            replace_parens_from(text@, 0) == out@ + replace_parens_from(text@, i as int),
        decreases n - i,
    {
        let ghost out0 = out@;
        let c = text.get_char(i);
        if c == '(' {
            match find_close_str(text, i + 1) {
                Some(j) => {
                    push_char(&mut out, ',');
                    proof {
                        assert(replace_parens_from(text@, i as int) == seq![',']
                            + replace_parens_from(text@, j + 1));
                        assert(out0 + replace_parens_from(text@, i as int) =~= out@
                            + replace_parens_from(text@, j + 1));
                    }
                    i = j + 1;
                },
                None => {
                    push_char(&mut out, '(');
                    proof {
                        assert(replace_parens_from(text@, i as int) == seq![text@[i as int]]
                            + replace_parens_from(text@, i + 1));
                        assert(out0 + replace_parens_from(text@, i as int) =~= out@
                            + replace_parens_from(text@, i + 1));
                    }
                    i = i + 1;
                },
            }
        } else {
            push_char(&mut out, c);
            proof {
                assert(replace_parens_from(text@, i as int) == seq![text@[i as int]]
                    + replace_parens_from(text@, i + 1));
                assert(out0 + replace_parens_from(text@, i as int) =~= out@ + replace_parens_from(
                    text@,
                    i + 1,
                ));
            }
            i = i + 1;
        }
    }
    proof {
        assert(out@ + replace_parens_from(text@, n as int) =~= out@);
    }
    out
}

/// Extracts the ordered list of names from a free-text field: parenthetical
/// annotations are discarded, names are split on commas and trimmed, and no
/// returned name is empty or whitespace-only.
pub fn parse_name_list(text: &str) -> (r: Vec<String>)
    ensures
        r.deep_view() == name_list_spec(text@),
{
    let replaced = replace_parens_str(text);
    let rep = replaced.as_str();
    let n = rep.unicode_len();
    let mut out: Vec<String> = Vec::new();
    let mut p: usize = 0;
    proof {
        assert(out.deep_view() + names_from(rep@.subrange(0, n as int)) =~= names_from(
            rep@.subrange(0, n as int),
        ));
        assert(rep@.subrange(0, n as int) =~= rep@);
    }
    let mut finished: bool = false;
    while !finished
        invariant
            n == rep@.len(),
            rep@ == replace_parens_from(text@, 0),
            0 <= p <= n,
            !finished ==> name_list_spec(text@) == out.deep_view() + names_from(
                rep@.subrange(p as int, n as int),
            ),
            finished ==> name_list_spec(text@) == out.deep_view(),
        decreases n - p + if finished {
            0int
        } else {
            1int
        },
    {
        let ghost sub = rep@.subrange(p as int, n as int);
        let ghost out0 = out.deep_view();
        let mut j = p;
        while j < n && rep.get_char(j) != ','
            invariant
                n == rep@.len(),
                p <= j <= n,
                forall|m: int| p <= m < j ==> #[trigger] rep@[m] != ',',
            decreases n - j,
        {
            j = j + 1;
        }
        proof {
            lemma_find_char(sub, ',', 0, j - p);
            assert(find_char(sub, ',', 0) == if j == n {
                None::<int>
            } else {
                Some(j - p)
            });
        }
        let piece = rep.substring_char(p, j);
        let trimmed = trim_str(piece);
        proof {
            assert(sub.subrange(0, j - p) =~= rep@.subrange(p as int, j as int));
            assert(trimmed@ == trim_spec(if j == n {
                sub
            } else {
                sub.subrange(0, j - p)
            }));
        }
        if trimmed.unicode_len() > 0 {
            out.push(trimmed.to_owned());
            proof {
                assert(out.deep_view() =~= out0 + seq![trimmed@]);
            }
        }
        proof {
            if j < n {
                assert(sub.subrange(j - p + 1, sub.len() as int) =~= rep@.subrange(
                    j + 1,
                    n as int,
                ));
                assert(names_from(sub) == (if trimmed@.len() > 0 {
                    seq![trimmed@]
                } else {
                    Seq::<Seq<char>>::empty()
                }) + names_from(rep@.subrange(j + 1, n as int)));
                assert(out0 + names_from(sub) =~= out.deep_view() + names_from(
                    rep@.subrange(j + 1, n as int),
                ));
            } else {
                assert(names_from(sub) == if trimmed@.len() > 0 {
                    seq![trimmed@]
                } else {
                    Seq::<Seq<char>>::empty()
                });
                assert(out0 + names_from(sub) =~= out.deep_view());
            }
        }
        if j < n {
            p = j + 1;
        } else {
            finished = true;
        }
    }
    out
}

/// What `remove_all_parens` returns: the text with every parenthesis
/// character, open or close, removed.
pub open spec fn without_parens(s: Seq<char>) -> Seq<char>
    decreases s.len(),
{
    if s.len() == 0 {
        Seq::empty()
    } else {
        let rest = without_parens(s.drop_last());
        if s.last() == '(' || s.last() == ')' {
            rest
        } else {
            rest.push(s.last())
        }
    }
}

/// Removes every parenthesis character from the text.
pub fn remove_all_parens(text: &str) -> (r: String)
    ensures
        r@ == without_parens(text@),
{
    let n = text.unicode_len();
    let mut out = String::new();
    let mut i: usize = 0;
    while i < n
        invariant
            n == text@.len(),
            0 <= i <= n,
            out@ == without_parens(text@.take(i as int)),
        decreases n - i,
    {
        let c = text.get_char(i);
        proof {
            assert(text@.take(i as int + 1).drop_last() =~= text@.take(i as int));
            assert(text@.take(i as int + 1).last() == text@[i as int]);
        }
        if !(c == '(' || c == ')') {
            push_char(&mut out, c);
        }
        i = i + 1;
    }
    proof {
        assert(text@.take(n as int) =~= text@);
    }
    out
}

} // verus!
