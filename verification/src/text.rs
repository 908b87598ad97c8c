//! Character classification, whitespace trimming and character search shared
//! by the slugifier, the name-list parser and the stack codec.

use vstd::prelude::*;

verus! {

/// The Unicode `White_Space` property, written out character by character.
/// This is the class that trimming and whitespace-to-hyphen mapping go by.
pub open spec fn is_unicode_ws(c: char) -> bool {
    let u = c as u32;
    (0x09 <= u && u <= 0x0D) || u == 0x20 || u == 0x85 || u == 0xA0 || u == 0x1680 || (0x2000 <= u
        && u <= 0x200A) || u == 0x2028 || u == 0x2029 || u == 0x202F || u == 0x205F || u == 0x3000
}

/// Decides the Unicode `White_Space` property.
pub fn is_whitespace_char(c: char) -> (r: bool)
    ensures
        r == is_unicode_ws(c),
{
    let u = c as u32;
    (0x09 <= u && u <= 0x0D) || u == 0x20 || u == 0x85 || u == 0xA0 || u == 0x1680 || (0x2000 <= u
        && u <= 0x200A) || u == 0x2028 || u == 0x2029 || u == 0x202F || u == 0x205F || u == 0x3000
}

/// Every character of `s` is whitespace.
pub open spec fn all_ws(s: Seq<char>) -> bool {
    forall|i: int| 0 <= i < s.len() ==> is_unicode_ws(#[trigger] s[i])
}

/// `s` without its leading whitespace.
pub open spec fn drop_leading_ws(s: Seq<char>) -> Seq<char>
    decreases s.len(),
{
    if s.len() > 0 && is_unicode_ws(s[0]) {
        drop_leading_ws(s.drop_first())
    } else {
        s
    }
}

/// `s` without its trailing whitespace.
pub open spec fn drop_trailing_ws(s: Seq<char>) -> Seq<char>
    decreases s.len(),
{
    if s.len() > 0 && is_unicode_ws(s.last()) {
        drop_trailing_ws(s.drop_last())
    } else {
        s
    }
}

/// `s` without leading and trailing whitespace: what `trim` returns.
pub open spec fn trim_spec(s: Seq<char>) -> Seq<char> {
    drop_trailing_ws(drop_leading_ws(s))
}

/// Dropping leading whitespace keeps the suffix that starts at the first
/// non-whitespace position.
pub proof fn lemma_drop_leading_ws_index(s: Seq<char>, k: int)
    requires
        0 <= k <= s.len(),
        forall|j: int| 0 <= j < k ==> is_unicode_ws(#[trigger] s[j]),
        k == s.len() || !is_unicode_ws(s[k]),
    ensures
        drop_leading_ws(s) == s.subrange(k, s.len() as int),
    decreases k,
{
    if k == 0 {
        assert(s.subrange(0, s.len() as int) =~= s);
    } else {
        assert(is_unicode_ws(s[0]));
        lemma_drop_leading_ws_index(s.drop_first(), k - 1);
        assert(s.drop_first().subrange(k - 1, s.drop_first().len() as int) =~= s.subrange(
            k,
            s.len() as int,
        ));
    }
}

/// Dropping trailing whitespace keeps the prefix that ends just after the
/// last non-whitespace position.
pub proof fn lemma_drop_trailing_ws_index(s: Seq<char>, k: int)
    requires
        0 <= k <= s.len(),
        forall|j: int| k <= j < s.len() ==> is_unicode_ws(#[trigger] s[j]),
        k == 0 || !is_unicode_ws(s[k - 1]),
    ensures
        drop_trailing_ws(s) == s.subrange(0, k),
    decreases s.len() - k,
{
    if k == s.len() {
        if s.len() > 0 {
            assert(!is_unicode_ws(s.last()));
        }
        assert(s.subrange(0, k) =~= s);
    } else {
        assert(is_unicode_ws(s.last()));
        lemma_drop_trailing_ws_index(s.drop_last(), k);
        assert(s.drop_last().subrange(0, k) =~= s.subrange(0, k));
    }
}

/// Returns `s` without leading and trailing whitespace.
pub fn trim_str<'a>(s: &'a str) -> (r: &'a str)
    ensures
        r@ == trim_spec(s@),
{
    let n = s.unicode_len();
    let mut start: usize = 0;
    while start < n && is_whitespace_char(s.get_char(start))
        invariant
            n == s@.len(),
            0 <= start <= n,
            forall|j: int| 0 <= j < start ==> is_unicode_ws(#[trigger] s@[j]),
        decreases n - start,
    {
        start = start + 1;
    }
    let mut end: usize = n;
    while end > start && is_whitespace_char(s.get_char(end - 1))
        invariant
            n == s@.len(),
            start <= end <= n,
            forall|j: int| end <= j < n ==> is_unicode_ws(#[trigger] s@[j]),
        decreases end,
    {
        end = end - 1;
    }
    proof {
        lemma_drop_leading_ws_index(s@, start as int);
        let mid = s@.subrange(start as int, s@.len() as int);
        lemma_drop_trailing_ws_index(mid, end - start);
        assert(mid.subrange(0, end - start) =~= s@.subrange(start as int, end as int));
    }
    s.substring_char(start, end)
}

/// Whitespace in front of `s` does not change what dropping leading
/// whitespace leaves.
pub proof fn lemma_drop_leading_ws_prepend(w: Seq<char>, s: Seq<char>)
    requires
        all_ws(w),
    ensures
        drop_leading_ws(w + s) == drop_leading_ws(s),
    decreases w.len(),
{
    if w.len() == 0 {
        assert(w + s =~= s);
    } else {
        assert(is_unicode_ws((w + s)[0]));
        assert((w + s).drop_first() =~= w.drop_first() + s);
        assert(all_ws(w.drop_first()));
        lemma_drop_leading_ws_prepend(w.drop_first(), s);
    }
}

/// Whitespace after `s` does not change what dropping trailing whitespace
/// leaves.
pub proof fn lemma_drop_trailing_ws_append(s: Seq<char>, w: Seq<char>)
    requires
        all_ws(w),
    ensures
        drop_trailing_ws(s + w) == drop_trailing_ws(s),
    decreases w.len(),
{
    if w.len() == 0 {
        assert(s + w =~= s);
    } else {
        assert(is_unicode_ws((s + w).last()));
        assert((s + w).drop_last() =~= s + w.drop_last());
        assert(all_ws(w.drop_last()));
        lemma_drop_trailing_ws_append(s, w.drop_last());
    }
}

/// A sequence of nothing but whitespace trims away entirely.
pub proof fn lemma_drop_leading_ws_all(s: Seq<char>)
    requires
        all_ws(s),
    ensures
        drop_leading_ws(s) == Seq::<char>::empty(),
    decreases s.len(),
{
    if s.len() > 0 {
        assert(all_ws(s.drop_first()));
        lemma_drop_leading_ws_all(s.drop_first());
    } else {
        assert(s =~= Seq::<char>::empty());
    }
}

/// When `s` holds a non-whitespace character, trailing whitespace appended to
/// `s` survives dropping the leading whitespace.
pub proof fn lemma_drop_leading_ws_append(s: Seq<char>, w: Seq<char>)
    requires
        !all_ws(s),
        all_ws(w),
    ensures
        drop_leading_ws(s + w) == drop_leading_ws(s) + w,
    decreases s.len(),
{
    let i = choose|i: int| 0 <= i < s.len() && !is_unicode_ws(s[i]);
    if is_unicode_ws(s[0]) {
        assert(is_unicode_ws((s + w)[0]));
        assert((s + w).drop_first() =~= s.drop_first() + w);
        assert(!is_unicode_ws(s.drop_first()[i - 1]));
        assert(!all_ws(s.drop_first()));
        lemma_drop_leading_ws_append(s.drop_first(), w);
    } else {
        assert(drop_leading_ws(s + w) == s + w);
        assert(drop_leading_ws(s) == s);
    }
}

/// Trimming discards any whitespace padding around a text.
pub proof fn lemma_trim_pad(w1: Seq<char>, s: Seq<char>, w2: Seq<char>)
    requires
        all_ws(w1),
        all_ws(w2),
    ensures
        trim_spec(w1 + s + w2) == trim_spec(s),
{
    assert(w1 + s + w2 =~= w1 + (s + w2));
    lemma_drop_leading_ws_prepend(w1, s + w2);
    if all_ws(s) {
        assert(all_ws(s + w2));
        lemma_drop_leading_ws_all(s + w2);
        lemma_drop_leading_ws_all(s);
    } else {
        lemma_drop_leading_ws_append(s, w2);
        lemma_drop_trailing_ws_append(drop_leading_ws(s), w2);
    }
}

/// What dropping leading whitespace leaves never starts with whitespace.
pub proof fn lemma_drop_leading_ws_head(s: Seq<char>)
    ensures
        drop_leading_ws(s).len() > 0 ==> !is_unicode_ws(drop_leading_ws(s)[0]),
    decreases s.len(),
{
    if s.len() > 0 && is_unicode_ws(s[0]) {
        lemma_drop_leading_ws_head(s.drop_first());
    }
}

/// What dropping trailing whitespace leaves never ends with whitespace, and
/// keeps the first character it had.
pub proof fn lemma_drop_trailing_ws_last(s: Seq<char>)
    ensures
        drop_trailing_ws(s).len() > 0 ==> !is_unicode_ws(drop_trailing_ws(s).last()),
        drop_trailing_ws(s).len() > 0 ==> drop_trailing_ws(s)[0] == s[0],
    decreases s.len(),
{
    if s.len() > 0 && is_unicode_ws(s.last()) {
        lemma_drop_trailing_ws_last(s.drop_last());
    }
}

/// A non-empty trimmed text neither starts nor ends with whitespace.
pub proof fn lemma_trim_spec_tight(s: Seq<char>)
    ensures
        trim_spec(s).len() > 0 ==> !is_unicode_ws(trim_spec(s)[0]),
        trim_spec(s).len() > 0 ==> !is_unicode_ws(trim_spec(s).last()),
{
    lemma_drop_leading_ws_head(s);
    lemma_drop_trailing_ws_last(drop_leading_ws(s));
}

/// The position of the first occurrence of `d` in `s` at or after `i`.
pub open spec fn find_char(s: Seq<char>, d: char, i: int) -> Option<int>
    decreases s.len() - i,
{
    if i < 0 || i >= s.len() {
        None
    } else if s[i] == d {
        Some(i)
    } else {
        find_char(s, d, i + 1)
    }
}

/// A scan that saw no `d` before `k`, and `d` at `k` unless `k` is the end,
/// pins down `find_char`.
pub proof fn lemma_find_char(s: Seq<char>, d: char, i: int, k: int)
    requires
        0 <= i <= k <= s.len(),
        forall|j: int| i <= j < k ==> s[j] != d,
        k < s.len() ==> s[k] == d,
    ensures
        find_char(s, d, i) == if k == s.len() {
            None::<int>
        } else {
            Some(k)
        },
    decreases k - i,
{
    if i < k {
        lemma_find_char(s, d, i + 1, k);
    }
}

/// A found character lies between the search start and the end of the text.
pub proof fn lemma_find_char_bounds(s: Seq<char>, d: char, i: int)
    requires
        0 <= i,
    ensures
        find_char(s, d, i) is Some ==> i <= find_char(s, d, i)->Some_0 < s.len(),
    decreases s.len() - i,
{
    if i < s.len() && s[i] != d {
        lemma_find_char_bounds(s, d, i + 1);
    }
}

/// Relies on String::push: appends exactly the one character.
#[verifier::external_body]
pub(crate) fn push_char(s: &mut String, c: char)
    ensures
        final (s)@ == old(s)@.push(c),
{
    s.push(c);
}

} // verus!
