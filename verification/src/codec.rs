//! The PR-stack codec: renders an ordered chain of pull-request numbers into
//! a block of text, one URL-bearing line per entry, and recovers the chain by
//! parsing such a block back.
//!
//! Decoding is a deliberately tolerant, line-oriented heuristic: each line
//! contributes the integer after the last `/` of its first
//! whitespace-delimited token, and lines without a parseable number
//! contribute nothing.

use vstd::prelude::*;

use crate::text::{
    drop_leading_ws,
    find_char,
    is_unicode_ws,
    is_whitespace_char,
    lemma_drop_leading_ws_index,
    lemma_find_char,
    push_char,
};

verus! {

/// An ASCII decimal digit.
pub open spec fn is_digit(c: char) -> bool {
    0x30 <= c as u32 && c as u32 <= 0x39
}

/// The numeric value of an ASCII decimal digit.
pub open spec fn digit_val(c: char) -> nat {
    if is_digit(c) {
        (c as u32 - 0x30) as nat
    } else {
        0
    }
}

/// Every character of `s` is an ASCII decimal digit.
pub open spec fn all_digits(s: Seq<char>) -> bool {
    forall|i: int| 0 <= i < s.len() ==> is_digit(#[trigger] s[i])
}

/// The value of `s` read as a decimal numeral.
pub open spec fn digits_val(s: Seq<char>) -> nat
    decreases s.len(),
{
    if s.len() == 0 {
        0
    } else {
        digits_val(s.drop_last()) * 10 + digit_val(s.last())
    }
}

/// What `str::parse::<u64>` returns: an optional leading `+`, then one or
/// more decimal digits whose value fits in a `u64`; anything else fails.
pub open spec fn parse_u64_spec(s: Seq<char>) -> Option<u64> {
    let body = if s.len() > 0 && s[0] == '+' {
        s.drop_first()
    } else {
        s
    };
    if body.len() > 0 && all_digits(body) && digits_val(body) <= u64::MAX {
        Some(digits_val(body) as u64)
    } else {
        None
    }
}

/// A prefix of a numeral never exceeds the numeral's own value.
proof fn lemma_digits_val_prefix(s: Seq<char>, k: int)
    requires
        0 <= k <= s.len(),
    ensures
        digits_val(s.take(k)) <= digits_val(s),
    decreases s.len() - k,
{
    if k < s.len() {
        assert(s.take(k + 1).drop_last() =~= s.take(k));
        assert(digits_val(s.take(k + 1)) == digits_val(s.take(k)) * 10 + digit_val(
            s.take(k + 1).last(),
        ));
        lemma_digits_val_prefix(s, k + 1);
    } else {
        assert(s.take(k) =~= s);
    }
}

/// Parses a `u64` the way `str::parse` does: an optional leading `+`, then
/// decimal digits, rejecting empty input, other characters and overflow.
fn parse_u64_str(s: &str) -> (r: Option<u64>)
    ensures
        r == parse_u64_spec(s@),
{
    let n = s.unicode_len();
    let start: usize = if n > 0 && s.get_char(0) == '+' {
        1
    } else {
        0
    };
    let ghost body = if start == 1 {
        s@.drop_first()
    } else {
        s@
    };
    proof {
        assert(body =~= s@.subrange(start as int, n as int));
    }
    if start == n {
        return None;
    }
    let mut val: u64 = 0;
    let mut i = start;
    while i < n
        invariant
            n == s@.len(),
            start <= i <= n,
            start == 0 || start == 1,
            start == 1 ==> n > 0 && s@[0] == '+',
            start == 0 ==> !(n > 0 && s@[0] == '+'),
            body == s@.subrange(start as int, n as int),
            all_digits(body.take(i - start)),
            val == digits_val(body.take(i - start)),
        decreases n - i,
    {
        let c = s.get_char(i);
        let u = c as u32;
        proof {
            assert(body[i - start] == s@[i as int]);
        }
        if !(0x30 <= u && u <= 0x39) {
            proof {
                assert(!is_digit(body[i - start]));
                assert(!all_digits(body));
                assert(body == if s@.len() > 0 && s@[0] == '+' {
                    s@.drop_first()
                } else {
                    s@
                });
                assert(parse_u64_spec(s@) is None);
            }
            return None;
        }
        let d: u64 = (u - 0x30) as u64;
        proof {
            assert(body.take(i - start + 1).drop_last() =~= body.take(i - start));
            assert(body.take(i - start + 1).last() == body[i - start]);
        }
        if val > (u64::MAX - d) / 10 {
            proof {
                assert(is_digit(body[i - start]));
                assert(digit_val(body[i - start]) == d);
                assert(digits_val(body.take(i - start + 1)) == val * 10 + d);
                assert(val * 10 + d > u64::MAX) by {
                    let q = (u64::MAX - d) / 10;
                    assert(u64::MAX - d == 10 * q + (u64::MAX - d) % 10);
                    assert(val >= q + 1);
                };
                lemma_digits_val_prefix(body, i - start + 1);
                assert(digits_val(body) > u64::MAX);
                assert(body == if s@.len() > 0 && s@[0] == '+' {
                    s@.drop_first()
                } else {
                    s@
                });
                assert(parse_u64_spec(s@) is None);
            }
            return None;
        }
        val = val * 10 + d;
        i = i + 1;
    }
    proof {
        assert(body.take(n - start) =~= body);
    }
    Some(val)
}

/// A line split out of a block of text: the trailing carriage return of a
/// `\r\n` line ending is not part of the line.
pub open spec fn strip_cr(s: Seq<char>) -> Seq<char> {
    if s.len() > 0 && s.last() == '\r' {
        s.drop_last()
    } else {
        s
    }
}

/// The lines of a text, split at `\n`, each stripped of a trailing `\r`; a
/// final line ending is optional and an empty text has no lines.
pub open spec fn lines_spec(s: Seq<char>) -> Seq<Seq<char>>
    decreases s.len(),
    via lines_spec_dec
{
    if s.len() == 0 {
        Seq::empty()
    } else {
        match find_char(s, '\n', 0) {
            Some(j) => seq![strip_cr(s.subrange(0, j))] + lines_spec(
                s.subrange(j + 1, s.len() as int),
            ),
            None => seq![s],
        }
    }
}

#[via_fn]
proof fn lines_spec_dec(s: Seq<char>) {
    crate::text::lemma_find_char_bounds(s, '\n', 0);
}

/// The longest run of non-whitespace characters at the front of `s`.
pub open spec fn take_non_ws(s: Seq<char>) -> Seq<char>
    decreases s.len(),
{
    if s.len() > 0 && !is_unicode_ws(s[0]) {
        seq![s[0]] + take_non_ws(s.drop_first())
    } else {
        Seq::empty()
    }
}

/// The first whitespace-delimited token of a line, if the line holds one.
pub open spec fn first_token_opt(line: Seq<char>) -> Option<Seq<char>> {
    let t = drop_leading_ws(line);
    if t.len() == 0 {
        None
    } else {
        Some(take_non_ws(t))
    }
}

/// What comes after the last `/` of `s`; all of `s` when it has none.
pub open spec fn after_last_slash(s: Seq<char>) -> Seq<char>
    decreases s.len(),
{
    if s.len() == 0 {
        s
    } else if s.last() == '/' {
        Seq::empty()
    } else {
        after_last_slash(s.drop_last()).push(s.last())
    }
}

/// The number a line contributes: the integer after the last `/` of its
/// first whitespace-delimited token, if that parses.
pub open spec fn line_number(line: Seq<char>) -> Option<u64> {
    match first_token_opt(line) {
        None => None,
        Some(tok) => parse_u64_spec(after_last_slash(tok)),
    }
}

/// The numbers the lines contribute, in line order.
pub open spec fn stack_numbers_of_lines(ls: Seq<Seq<char>>) -> Seq<u64>
    decreases ls.len(),
{
    if ls.len() == 0 {
        Seq::empty()
    } else {
        match line_number(ls[0]) {
            Some(n) => seq![n] + stack_numbers_of_lines(ls.drop_first()),
            None => stack_numbers_of_lines(ls.drop_first()),
        }
    }
}

/// What `parse_pr_stack_list` returns for a block of text.
pub open spec fn decode_stack(s: Seq<char>) -> Seq<u64> {
    stack_numbers_of_lines(lines_spec(s))
}

/// A scan that saw only non-whitespace before `m`, and whitespace or the end
/// at `m`, pins down the first token's extent.
proof fn lemma_take_non_ws_index(s: Seq<char>, m: int)
    requires
        0 <= m <= s.len(),
        forall|j: int| 0 <= j < m ==> !is_unicode_ws(#[trigger] s[j]),
        m == s.len() || is_unicode_ws(s[m]),
    ensures
        take_non_ws(s) == s.subrange(0, m),
    decreases m,
{
    if m == 0 {
        assert(s.subrange(0, 0) =~= Seq::<char>::empty());
    } else {
        assert(!is_unicode_ws(s[0]));
        lemma_take_non_ws_index(s.drop_first(), m - 1);
        assert(seq![s[0]] + s.drop_first().subrange(0, m - 1) =~= s.subrange(0, m));
    }
}

/// A scan backwards from the end that saw no `/` until position `k`, with a
/// `/` just before `k` unless `k` is the start, pins down the last segment.
proof fn lemma_after_last_slash_index(s: Seq<char>, k: int)
    requires
        0 <= k <= s.len(),
        forall|m: int| k <= m < s.len() ==> s[m] != '/',
        k == 0 || s[k - 1] == '/',
    ensures
        after_last_slash(s) == s.subrange(k, s.len() as int),
    decreases s.len(),
{
    if s.len() == 0 {
        assert(s.subrange(0, 0) =~= s);
    } else if k == s.len() {
        assert(s.last() == '/');
        assert(s.subrange(k, s.len() as int) =~= Seq::<char>::empty());
    } else {
        assert(s.last() != '/');
        lemma_after_last_slash_index(s.drop_last(), k);
        assert(s.drop_last().subrange(k, s.drop_last().len() as int).push(s.last()) =~= s.subrange(
            k,
            s.len() as int,
        ));
    }
}

/// The number a single line contributes.
fn line_number_str(line: &str) -> (r: Option<u64>)
    ensures
        r == line_number(line@),
{
    let n = line.unicode_len();
    let mut a: usize = 0;
    while a < n && is_whitespace_char(line.get_char(a))
        invariant
            n == line@.len(),
            0 <= a <= n,
            forall|j: int| 0 <= j < a ==> is_unicode_ws(#[trigger] line@[j]),
        decreases n - a,
    {
        a = a + 1;
    }
    proof {
        lemma_drop_leading_ws_index(line@, a as int);
    }
    if a == n {
        return None;
    }
    let mut b = a;
    while b < n && !is_whitespace_char(line.get_char(b))
        invariant
            n == line@.len(),
            a <= b <= n,
            forall|j: int| a <= j < b ==> !is_unicode_ws(#[trigger] line@[j]),
        decreases n - b,
    {
        b = b + 1;
    }
    proof {
        let t = line@.subrange(a as int, n as int);
        lemma_take_non_ws_index(t, b - a);
        assert(t.subrange(0, b - a) =~= line@.subrange(a as int, b as int));
    }
    let mut k = b;
    while k > a && line.get_char(k - 1) != '/'
        invariant
            n == line@.len(),
            a <= k <= b <= n,
            forall|m: int| k <= m < b ==> #[trigger] line@[m] != '/',
        decreases k,
    {
        k = k - 1;
    }
    proof {
        let tok = line@.subrange(a as int, b as int);
        lemma_after_last_slash_index(tok, k - a);
        assert(tok.subrange(k - a, tok.len() as int) =~= line@.subrange(k as int, b as int));
    }
    let seg = line.substring_char(k, b);
    parse_u64_str(seg)
}

/// Recovers the chain of pull-request numbers from a stack block: one number
/// per line bearing a URL whose path ends in the number; other lines
/// contribute nothing, and line order is preserved.
pub fn parse_pr_stack_list(text: &str) -> (r: Vec<u64>)
    ensures
        r@ == decode_stack(text@),
{
    let n = text.unicode_len();
    let mut out: Vec<u64> = Vec::new();
    let mut p: usize = 0;
    proof {
        assert(text@.subrange(0, n as int) =~= text@);
        assert(out@ + decode_stack(text@) =~= decode_stack(text@));
    }
    while p < n
        invariant
            n == text@.len(),
            0 <= p <= n,
            decode_stack(text@) == out@ + stack_numbers_of_lines(
                lines_spec(text@.subrange(p as int, n as int)),
            ),
        decreases n - p,
    {
        let ghost sub = text@.subrange(p as int, n as int);
        let ghost out0 = out@;
        let mut j = p;
        while j < n && text.get_char(j) != '\n'
            invariant
                n == text@.len(),
                p <= j <= n,
                forall|m: int| p <= m < j ==> #[trigger] text@[m] != '\n',
            decreases n - j,
        {
            j = j + 1;
        }
        proof {
            lemma_find_char(sub, '\n', 0, j - p);
        }
        let line_end = if j < n && j > p && text.get_char(j - 1) == '\r' {
            j - 1
        } else {
            j
        };
        let line = text.substring_char(p, line_end);
        proof {
            if j < n {
                assert(sub.subrange(0, j - p) =~= text@.subrange(p as int, j as int));
                if j > p && text@[j - 1] == '\r' {
                    assert(text@.subrange(p as int, j as int).drop_last() =~= text@.subrange(
                        p as int,
                        j - 1,
                    ));
                    assert(line@ == strip_cr(sub.subrange(0, j - p)));
                } else {
                    assert(line@ == strip_cr(sub.subrange(0, j - p)));
                }
                assert(lines_spec(sub) == seq![line@] + lines_spec(
                    sub.subrange(j - p + 1, sub.len() as int),
                ));
                assert(sub.subrange(j - p + 1, sub.len() as int) =~= text@.subrange(
                    j + 1,
                    n as int,
                ));
            } else {
                assert(line@ =~= sub);
                assert(lines_spec(sub) == seq![line@]);
            }
        }
        let num = line_number_str(line);
        let ghost rest_lines = if j < n {
            lines_spec(text@.subrange(j + 1, n as int))
        } else {
            Seq::<Seq<char>>::empty()
        };
        proof {
            assert((seq![line@] + rest_lines)[0] == line@);
            assert((seq![line@] + rest_lines).drop_first() =~= rest_lines);
        }
        match num {
            Some(v) => {
                out.push(v);
                proof {
                    assert(out@ =~= out0.push(v));
                    assert(out0 + (seq![v] + stack_numbers_of_lines(rest_lines)) =~= out@
                        + stack_numbers_of_lines(rest_lines));
                }
            },
            None => {},
        }
        if j < n {
            p = j + 1;
        } else {
            p = n;
            proof {
                assert(text@.subrange(n as int, n as int) =~= Seq::<char>::empty());
            }
        }
    }
    proof {
        assert(text@.subrange(n as int, n as int) =~= Seq::<char>::empty());
    }
    out
}

/// The decimal digit character for `n % 10`.
pub open spec fn dec_digit(n: u64) -> char {
    ((0x30 + (n % 10)) as u8) as char
}

/// The decimal numeral of `n`, most significant digit first.
pub open spec fn dec_of(n: u64) -> Seq<char>
    decreases n,
{
    if n < 10 {
        seq![dec_digit(n)]
    } else {
        dec_of((n / 10) as u64).push(dec_digit(n))
    }
}

/// The URL line body for pull request `n` of `owner`/`repo`.
pub open spec fn url_of(n: u64, owner: Seq<char>, repo: Seq<char>) -> Seq<char> {
    "https://github.com/"@ + owner + "/"@ + repo + "/pull/"@ + dec_of(n)
}

/// The lines after the first: each ancestor on a line of its own, without
/// decoration.
pub open spec fn encode_rest(ns: Seq<u64>, owner: Seq<char>, repo: Seq<char>) -> Seq<char>
    decreases ns.len(),
{
    if ns.len() == 0 {
        Seq::empty()
    } else {
        seq!['\n'] + url_of(ns[0], owner, repo) + encode_rest(ns.drop_first(), owner, repo)
    }
}

/// The rendered stack block: one URL per number in the given order, the
/// first line marked as the current pull request.
pub open spec fn encode_stack(ns: Seq<u64>, owner: Seq<char>, repo: Seq<char>) -> Seq<char> {
    if ns.len() == 0 {
        Seq::empty()
    } else {
        url_of(ns[0], owner, repo) + " <-- (current PR)"@ + encode_rest(
            ns.drop_first(),
            owner,
            repo,
        )
    }
}

/// Appends the decimal numeral of `n`.
fn push_decimal(out: &mut String, n: u64)
    ensures
        final (out)@ == old(out)@ + dec_of(n),
    decreases n,
{
    if n >= 10 {
        push_decimal(out, n / 10);
    }
    let ghost mid = out@;
    let d: u8 = 0x30 + (n % 10) as u8;
    push_char(out, d as char);
    proof {
        assert(d as char == dec_digit(n));
        assert(mid.push(dec_digit(n)) =~= old(out)@ + dec_of(n));
    }
}

/// Appends the URL line body for pull request `n`.
fn push_url(out: &mut String, n: u64, owner: &str, repo: &str)
    ensures
        final (out)@ == old(out)@ + url_of(n, owner@, repo@),
{
    out.append("https://github.com/");
    out.append(owner);
    out.append("/");
    out.append(repo);
    out.append("/pull/");
    push_decimal(out, n);
    proof {
        assert(out@ =~= old(out)@ + url_of(n, owner@, repo@));
    }
}

/// Appending one more number to a non-empty stack appends one more line.
proof fn lemma_encode_rest_push(ns: Seq<u64>, x: u64, owner: Seq<char>, repo: Seq<char>)
    ensures
        encode_rest(ns.push(x), owner, repo) == encode_rest(ns, owner, repo) + (seq!['\n']
            + url_of(x, owner, repo)),
    decreases ns.len(),
{
    if ns.len() == 0 {
        assert(ns.push(x)[0] == x);
        assert(ns.push(x).drop_first() =~= Seq::<u64>::empty());
        assert(encode_rest(ns.push(x), owner, repo) == seq!['\n'] + url_of(x, owner, repo)
            + encode_rest(ns.push(x).drop_first(), owner, repo));
        assert(encode_rest(ns.push(x).drop_first(), owner, repo) == Seq::<char>::empty());
        assert(encode_rest(ns, owner, repo) == Seq::<char>::empty());
        assert(encode_rest(ns.push(x), owner, repo) =~= encode_rest(ns, owner, repo) + (seq![
            '\n',
        ] + url_of(x, owner, repo)));
    } else {
        assert(ns.push(x)[0] == ns[0]);
        assert(ns.push(x).drop_first() =~= ns.drop_first().push(x));
        lemma_encode_rest_push(ns.drop_first(), x, owner, repo);
        assert(encode_rest(ns.push(x), owner, repo) == seq!['\n'] + url_of(ns[0], owner, repo)
            + encode_rest(ns.drop_first().push(x), owner, repo));
        assert(encode_rest(ns.drop_first().push(x), owner, repo) == encode_rest(
            ns.drop_first(),
            owner,
            repo,
        ) + (seq!['\n'] + url_of(x, owner, repo)));
        assert(encode_rest(ns, owner, repo) == seq!['\n'] + url_of(ns[0], owner, repo)
            + encode_rest(ns.drop_first(), owner, repo));
        assert(encode_rest(ns.push(x), owner, repo) =~= encode_rest(ns, owner, repo) + (seq![
            '\n',
        ] + url_of(x, owner, repo)));
    }
}

/// No character of `s` is whitespace.
pub open spec fn no_ws(s: Seq<char>) -> bool {
    forall|i: int| 0 <= i < s.len() ==> !is_unicode_ws(#[trigger] s[i])
}

/// No character of `s` is a line feed.
pub open spec fn no_newline(s: Seq<char>) -> bool {
    forall|i: int| 0 <= i < s.len() ==> #[trigger] s[i] != '\n'
}

proof fn lemma_no_ws_concat(a: Seq<char>, b: Seq<char>)
    requires
        no_ws(a),
        no_ws(b),
    ensures
        no_ws(a + b),
{
    assert forall|i: int| 0 <= i < (a + b).len() implies !is_unicode_ws(#[trigger] (a + b)[i]) by {
        if i < a.len() {
            assert((a + b)[i] == a[i]);
        } else {
            assert((a + b)[i] == b[i - a.len()]);
        }
    }
}

proof fn lemma_no_newline_concat(a: Seq<char>, b: Seq<char>)
    requires
        no_newline(a),
        no_newline(b),
    ensures
        no_newline(a + b),
{
    assert forall|i: int| 0 <= i < (a + b).len() implies #[trigger] (a + b)[i] != '\n' by {
        if i < a.len() {
            assert((a + b)[i] == a[i]);
        } else {
            assert((a + b)[i] == b[i - a.len()]);
        }
    }
}

proof fn lemma_no_ws_no_newline(s: Seq<char>)
    requires
        no_ws(s),
    ensures
        no_newline(s),
{
    assert forall|i: int| 0 <= i < s.len() implies #[trigger] s[i] != '\n' by {
        assert(!is_unicode_ws(s[i]));
    }
}

proof fn lemma_format_literals()
    ensures
        no_ws("https://github.com/"@),
        no_ws("/"@),
        no_ws("/pull/"@),
        "https://github.com/"@.len() == 19,
        "https://github.com/"@[0] == 'h',
        "/pull/"@.len() == 6,
        "/pull/"@.last() == '/',
        no_newline(" <-- (current PR)"@),
        " <-- (current PR)"@.len() == 17,
        " <-- (current PR)"@[0] == ' ',
        " <-- (current PR)"@.last() == ')',
        is_unicode_ws(' '),
        !is_unicode_ws('h'),
{
    reveal_strlit("https://github.com/");
    reveal_strlit("/");
    reveal_strlit("/pull/");
    reveal_strlit(" <-- (current PR)");
}

proof fn lemma_dec_of_digits(n: u64)
    ensures
        all_digits(dec_of(n)),
        dec_of(n).len() >= 1,
        digits_val(dec_of(n)) == n,
    decreases n,
{
    if n < 10 {
        assert(dec_of(n).drop_last() =~= Seq::<char>::empty());
        assert(is_digit(dec_digit(n)));
        assert(digit_val(dec_digit(n)) == n % 10);
        assert(digits_val(dec_of(n).drop_last()) == 0);
        assert(dec_of(n).last() == dec_digit(n));
        assert(digits_val(dec_of(n)) == 0 * 10 + digit_val(dec_digit(n)));
    } else {
        lemma_dec_of_digits(n / 10);
        assert(dec_of(n) == dec_of((n / 10) as u64).push(dec_digit(n)));
        assert(dec_of(n).drop_last() =~= dec_of((n / 10) as u64));
        assert(is_digit(dec_digit(n)));
        assert(digit_val(dec_digit(n)) == n % 10);
        assert(digits_val(dec_of(n)) == (n / 10) * 10 + n % 10);
        assert((n / 10) * 10 + n % 10 == n);
        assert forall|i: int| 0 <= i < dec_of(n).len() implies is_digit(#[trigger] dec_of(n)[i]) by {
            if i < dec_of(n).len() - 1 {
                assert(dec_of(n)[i] == dec_of((n / 10) as u64)[i]);
            } else {
                assert(dec_of(n)[i] == dec_digit(n));
            }
        }
    }
}

proof fn lemma_digits_benign(s: Seq<char>)
    requires
        all_digits(s),
    ensures
        no_ws(s),
        forall|i: int| 0 <= i < s.len() ==> #[trigger] s[i] != '/',
        forall|i: int| 0 <= i < s.len() ==> #[trigger] s[i] != '\r',
        forall|i: int| 0 <= i < s.len() ==> #[trigger] s[i] != '\n',
        forall|i: int| 0 <= i < s.len() ==> #[trigger] s[i] != '+',
{
    assert forall|i: int|
        0 <= i < s.len() implies !is_unicode_ws(#[trigger] s[i]) && s[i] != '/' && s[i] != '\r'
        && s[i] != '\n' && s[i] != '+' by {
        assert(is_digit(s[i]));
    }
}

proof fn lemma_parse_dec(n: u64)
    ensures
        parse_u64_spec(dec_of(n)) == Some(n),
{
    lemma_dec_of_digits(n);
    lemma_digits_benign(dec_of(n));
    assert(dec_of(n)[0] != '+');
}

proof fn lemma_url_parts(n: u64, owner: Seq<char>, repo: Seq<char>)
    requires
        no_ws(owner),
        no_ws(repo),
    ensures
        no_ws(url_of(n, owner, repo)),
        url_of(n, owner, repo).len() > 0,
        url_of(n, owner, repo).last() != '\r',
        after_last_slash(url_of(n, owner, repo)) == dec_of(n),
{
    lemma_format_literals();
    lemma_dec_of_digits(n);
    lemma_digits_benign(dec_of(n));
    let head = "https://github.com/"@ + owner + "/"@ + repo + "/pull/"@;
    let url = url_of(n, owner, repo);
    lemma_no_ws_concat("https://github.com/"@, owner);
    lemma_no_ws_concat("https://github.com/"@ + owner, "/"@);
    lemma_no_ws_concat("https://github.com/"@ + owner + "/"@, repo);
    lemma_no_ws_concat("https://github.com/"@ + owner + "/"@ + repo, "/pull/"@);
    lemma_no_ws_concat(head, dec_of(n));
    assert(url == head + dec_of(n));
    assert(url.len() == head.len() + dec_of(n).len());
    assert(url.last() == dec_of(n).last());
    assert(is_digit(url.last()));
    assert(url.last() != '\r');
    let k = head.len() as int;
    assert forall|m: int| k <= m < url.len() implies #[trigger] url[m] != '/' by {
        assert(url[m] == dec_of(n)[m - k]);
    }
    assert(head.last() == '/');
    assert(url[k - 1] == head.last());
    lemma_after_last_slash_index(url, k);
    assert(url.subrange(k, url.len() as int) =~= dec_of(n));
}

proof fn lemma_line_number_url(n: u64, owner: Seq<char>, repo: Seq<char>, suffix: Seq<char>)
    requires
        no_ws(owner),
        no_ws(repo),
        suffix.len() == 0 || is_unicode_ws(suffix[0]),
    ensures
        line_number(url_of(n, owner, repo) + suffix) == Some(n),
{
    lemma_url_parts(n, owner, repo);
    let url = url_of(n, owner, repo);
    let line = url + suffix;
    assert(line[0] == url[0]);
    assert(!is_unicode_ws(line[0]));
    lemma_drop_leading_ws_index(line, 0);
    assert(line.subrange(0, line.len() as int) =~= line);
    assert forall|j: int| 0 <= j < url.len() implies !is_unicode_ws(#[trigger] line[j]) by {
        assert(line[j] == url[j]);
    }
    if suffix.len() > 0 {
        assert(line[url.len() as int] == suffix[0]);
    }
    lemma_take_non_ws_index(line, url.len() as int);
    assert(line.subrange(0, url.len() as int) =~= url);
    lemma_parse_dec(n);
}

/// Decoding the tail lines — one undecorated URL per number — recovers the
/// numbers.
proof fn lemma_stack_tail(ns: Seq<u64>, owner: Seq<char>, repo: Seq<char>)
    requires
        ns.len() >= 1,
        no_ws(owner),
        no_ws(repo),
    ensures
        stack_numbers_of_lines(
            lines_spec(url_of(ns[0], owner, repo) + encode_rest(ns.drop_first(), owner, repo)),
        ) == ns,
    decreases ns.len(),
{
    let url = url_of(ns[0], owner, repo);
    let rest = ns.drop_first();
    let text = url + encode_rest(rest, owner, repo);
    lemma_url_parts(ns[0], owner, repo);
    lemma_line_number_url(ns[0], owner, repo, Seq::empty());
    assert(url + Seq::<char>::empty() =~= url);
    if rest.len() == 0 {
        assert(text =~= url);
        assert forall|j: int| 0 <= j < text.len() implies #[trigger] text[j] != '\n' by {
            assert(!is_unicode_ws(text[j]));
        }
        lemma_find_char(text, '\n', 0, text.len() as int);
        assert(lines_spec(text) == seq![text]);
        let ls = seq![text];
        assert(ls[0] == url);
        assert(ls.drop_first() =~= Seq::<Seq<char>>::empty());
        assert(stack_numbers_of_lines(ls.drop_first()) == Seq::<u64>::empty());
        assert(stack_numbers_of_lines(ls) =~= seq![ns[0]]);
        assert(seq![ns[0]] =~= ns);
    } else {
        let tail_text = url_of(rest[0], owner, repo) + encode_rest(rest.drop_first(), owner, repo);
        assert(encode_rest(rest, owner, repo) == seq!['\n'] + url_of(rest[0], owner, repo)
            + encode_rest(rest.drop_first(), owner, repo));
        assert(text =~= url + seq!['\n'] + tail_text);
        let k = url.len() as int;
        assert forall|j: int| 0 <= j < k implies #[trigger] text[j] != '\n' by {
            assert(text[j] == url[j]);
            assert(!is_unicode_ws(url[j]));
        }
        assert(text[k] == '\n');
        lemma_find_char(text, '\n', 0, k);
        assert(text.subrange(0, k) =~= url);
        assert(strip_cr(url) == url);
        assert(lines_spec(text) == seq![url] + lines_spec(text.subrange(k + 1, text.len() as int)));
        assert(text.subrange(k + 1, text.len() as int) =~= tail_text);
        lemma_stack_tail(rest, owner, repo);
        let ls = seq![url] + lines_spec(tail_text);
        assert(ls[0] == url);
        assert(ls.drop_first() =~= lines_spec(tail_text));
        assert(stack_numbers_of_lines(ls) =~= seq![ns[0]] + rest);
        assert(seq![ns[0]] + rest =~= ns);
    }
}

/// Law: the codec round-trips. For any non-empty chain of pull-request
/// numbers, and any owner and repository names free of whitespace, decoding
/// the rendered stack block yields exactly the chain that was encoded.
pub proof fn lemma_stack_roundtrip(ns: Seq<u64>, owner: Seq<char>, repo: Seq<char>)
    requires
        ns.len() >= 1,
        no_ws(owner),
        no_ws(repo),
    ensures
        decode_stack(encode_stack(ns, owner, repo)) == ns,
{
    lemma_format_literals();
    lemma_url_parts(ns[0], owner, repo);
    let url = url_of(ns[0], owner, repo);
    let annot = " <-- (current PR)"@;
    let line1 = url + annot;
    let text = encode_stack(ns, owner, repo);
    lemma_line_number_url(ns[0], owner, repo, annot);
    lemma_no_ws_no_newline(url);
    lemma_no_newline_concat(url, annot);
    assert(line1.last() == annot.last());
    assert(strip_cr(line1) == line1);
    if ns.len() == 1 {
        assert(encode_rest(ns.drop_first(), owner, repo) == Seq::<char>::empty());
        assert(text =~= line1);
        lemma_find_char(text, '\n', 0, text.len() as int);
        assert(lines_spec(text) == seq![text]);
        let ls = seq![text];
        assert(ls[0] == line1);
        assert(ls.drop_first() =~= Seq::<Seq<char>>::empty());
        assert(stack_numbers_of_lines(ls.drop_first()) == Seq::<u64>::empty());
        assert(stack_numbers_of_lines(ls) =~= seq![ns[0]]);
        assert(seq![ns[0]] =~= ns);
    } else {
        let rest = ns.drop_first();
        let tail_text = url_of(rest[0], owner, repo) + encode_rest(rest.drop_first(), owner, repo);
        assert(encode_rest(rest, owner, repo) == seq!['\n'] + url_of(rest[0], owner, repo)
            + encode_rest(rest.drop_first(), owner, repo));
        assert(text =~= line1 + seq!['\n'] + tail_text);
        let k = line1.len() as int;
        assert forall|j: int| 0 <= j < k implies #[trigger] text[j] != '\n' by {
            assert(text[j] == line1[j]);
        }
        assert(text[k] == '\n');
        lemma_find_char(text, '\n', 0, k);
        assert(text.subrange(0, k) =~= line1);
        assert(lines_spec(text) == seq![line1] + lines_spec(
            text.subrange(k + 1, text.len() as int),
        ));
        assert(text.subrange(k + 1, text.len() as int) =~= tail_text);
        lemma_stack_tail(rest, owner, repo);
        let ls = seq![line1] + lines_spec(tail_text);
        assert(ls[0] == line1);
        assert(ls.drop_first() =~= lines_spec(tail_text));
        assert(stack_numbers_of_lines(ls) =~= seq![ns[0]] + rest);
        assert(seq![ns[0]] + rest =~= ns);
    }
}

/// Renders the stack of pull-request numbers into its display block: one
/// line per number, in the given order, `https://github.com/owner/repo/pull/n`
/// on each, the first line marked as the current pull request.
pub fn build_pr_stack_message(numbers: &Vec<u64>, owner: &str, repo: &str) -> (r: String)
    ensures
        r@ == encode_stack(numbers@, owner@, repo@),
{
    let mut out = String::new();
    if numbers.len() == 0 {
        return out;
    }
    push_url(&mut out, numbers[0], owner, repo);
    out.append(" <-- (current PR)");
    proof {
        assert(numbers@.take(1)[0] == numbers@[0]);
        assert(numbers@.take(1).drop_first() =~= Seq::<u64>::empty());
        assert(out@ =~= encode_stack(numbers@.take(1), owner@, repo@));
    }
    let mut idx: usize = 1;
    while idx < numbers.len()
        invariant
            1 <= idx <= numbers@.len(),
            out@ == encode_stack(numbers@.take(idx as int), owner@, repo@),
        decreases numbers@.len() - idx,
    {
        let ghost t0 = numbers@.take(idx as int);
        let ghost t1 = numbers@.take(idx as int + 1);
        push_char(&mut out, '\n');
        push_url(&mut out, numbers[idx], owner, repo);
        proof {
            let x = numbers@[idx as int];
            assert(t1 =~= t0.push(x));
            assert(t1[0] == t0[0]);
            assert(t1.drop_first() =~= t0.drop_first().push(x));
            lemma_encode_rest_push(t0.drop_first(), x, owner@, repo@);
            assert(out@ =~= encode_stack(t1, owner@, repo@));
        }
        idx = idx + 1;
    }
    proof {
        assert(numbers@.take(numbers@.len() as int) =~= numbers@);
    }
    out
}

} // verus!
