//! Character and string primitives used throughout the catalog logic:
//! whitespace classification, trimming, substring search, word splitting,
//! and the few Unicode operations that are delegated to the standard
//! library behind trusted wrappers.

use vstd::prelude::*;

verus! {

/// Unicode `White_Space` characters, the set that both `str::trim` and
/// `str::split_whitespace` split on.
pub open spec fn is_ws(c: char) -> bool {
    ||| c == ' '
    ||| ('\u{09}' <= c && c <= '\u{0d}')
    ||| c == '\u{85}'
    ||| c == '\u{a0}'
    ||| c == '\u{1680}'
    ||| ('\u{2000}' <= c && c <= '\u{200a}')
    ||| c == '\u{2028}'
    ||| c == '\u{2029}'
    ||| c == '\u{202f}'
    ||| c == '\u{205f}'
    ||| c == '\u{3000}'
}

/// Every character of `s` is whitespace (true of the empty string).
pub open spec fn blank_of(s: Seq<char>) -> bool {
    forall|i: int| 0 <= i < s.len() ==> is_ws(s[i])
}

/// `pat` occurs in `s` starting at position `i`.
pub open spec fn matches_at(s: Seq<char>, pat: Seq<char>, i: int) -> bool {
    &&& 0 <= i
    &&& i + pat.len() <= s.len()
    &&& forall|j: int| 0 <= j < pat.len() ==> s[i + j] == pat[j]
}

/// Position of the first occurrence of `pat` in `s` at or after `i`.
pub open spec fn find_from(s: Seq<char>, pat: Seq<char>, i: int) -> Option<int>
    recommends
        0 <= i <= s.len(),
    decreases s.len() - i,
    when 0 <= i <= s.len()
{
    if i + pat.len() > s.len() {
        None
    } else if matches_at(s, pat, i) {
        Some(i)
    } else {
        find_from(s, pat, i + 1)
    }
}

/// Position of the first occurrence of `pat` in `s`, if any.
pub open spec fn find_in(s: Seq<char>, pat: Seq<char>) -> Option<int> {
    find_from(s, pat, 0)
}

/// `pat` occurs somewhere in `s`.
pub open spec fn has_sub(s: Seq<char>, pat: Seq<char>) -> bool {
    find_in(s, pat) is Some
}

/// `s` begins with `pat`.
pub open spec fn starts_with_s(s: Seq<char>, pat: Seq<char>) -> bool {
    matches_at(s, pat, 0)
}

/// `s` ends with `pat`.
pub open spec fn ends_with_s(s: Seq<char>, pat: Seq<char>) -> bool {
    matches_at(s, pat, s.len() - pat.len())
}

/// Number of occurrences of the character `c` in `s`.
pub open spec fn count_ch(s: Seq<char>, c: char) -> int
    decreases s.len(),
{
    if s.len() == 0 {
        0
    } else {
        (if s[0] == c { 1int } else { 0int }) + count_ch(s.drop_first(), c)
    }
}

/// First position at or after `i` holding a non-whitespace character
/// (the length of `s` if there is none).
pub open spec fn ws_from(s: Seq<char>, i: int) -> int
    recommends
        0 <= i <= s.len(),
    decreases s.len() - i,
    when 0 <= i <= s.len()
{
    if i >= s.len() {
        i
    } else if !is_ws(s[i]) {
        i
    } else {
        ws_from(s, i + 1)
    }
}

/// Largest position at or below `j` such that the character just before it
/// is not whitespace (zero if there is none).
pub open spec fn ws_back(s: Seq<char>, j: int) -> int
    recommends
        0 <= j <= s.len(),
    decreases j,
    when 0 <= j <= s.len()
{
    if j <= 0 {
        0
    } else if !is_ws(s[j - 1]) {
        j
    } else {
        ws_back(s, j - 1)
    }
}

/// `s` with leading and trailing whitespace removed.
pub open spec fn trim_of(s: Seq<char>) -> Seq<char> {
    let a = ws_from(s, 0);
    let b = ws_back(s, s.len() as int);
    if a <= b {
        s.subrange(a, b)
    } else {
        Seq::empty()
    }
}

/// End of the whitespace-free run starting at `i`.
pub open spec fn word_end(s: Seq<char>, i: int) -> int
    recommends
        0 <= i <= s.len(),
    decreases s.len() - i,
    when 0 <= i <= s.len()
{
    if i >= s.len() {
        i
    } else if is_ws(s[i]) {
        i
    } else {
        word_end(s, i + 1)
    }
}

pub proof fn lemma_word_end_bounds(s: Seq<char>, i: int)
    requires
        0 <= i <= s.len(),
    ensures
        i <= word_end(s, i) <= s.len(),
    decreases s.len() - i,
{
    if i < s.len() && !is_ws(s[i]) {
        lemma_word_end_bounds(s, i + 1);
    }
}

/// The maximal whitespace-free runs of `s` from position `i` on, in order:
/// what `str::split_whitespace` yields.
pub open spec fn words_from(s: Seq<char>, i: int) -> Seq<Seq<char>>
    recommends
        0 <= i <= s.len(),
    decreases s.len() - i,
    when 0 <= i <= s.len()
    via words_from_dec
{
    if i >= s.len() {
        Seq::empty()
    } else if is_ws(s[i]) {
        words_from(s, i + 1)
    } else {
        seq![s.subrange(i, word_end(s, i))] + words_from(s, word_end(s, i))
    }
}

#[via_fn]
proof fn words_from_dec(s: Seq<char>, i: int) {
    if 0 <= i < s.len() && !is_ws(s[i]) {
        lemma_word_end_bounds(s, i + 1);
    }
}

/// The words of `s`: its maximal whitespace-free runs, in order.
pub open spec fn words_of(s: Seq<char>) -> Seq<Seq<char>> {
    words_from(s, 0)
}

/// Number of bytes of the UTF-8 encoding of `c`.
pub open spec fn utf8_len(c: char) -> int {
    if (c as u32) < 0x80 {
        1
    } else if (c as u32) < 0x800 {
        2
    } else if (c as u32) < 0x10000 {
        3
    } else {
        4
    }
}

/// Number of bytes of the UTF-8 encoding of `s`: what `str::len` returns.
pub open spec fn byte_len_of(s: Seq<char>) -> int
    decreases s.len(),
{
    if s.len() == 0 {
        0
    } else {
        utf8_len(s[0]) + byte_len_of(s.drop_first())
    }
}

/// The views of a sequence of character vectors.
pub open spec fn word_views(ws: Seq<Vec<char>>) -> Seq<Seq<char>> {
    ws.map_values(|w: Vec<char>| w@)
}

/// `byte_len_of` agrees with the length of the UTF-8 encoding, and so with
/// what `str::len` returns.
pub proof fn lemma_byte_len_is_encoding(s: Seq<char>)
    ensures
        byte_len_of(s) == vstd::utf8::encode_utf8(s).len(),
    decreases s.len(),
{
    if s.len() > 0 {
        lemma_byte_len_is_encoding(s.drop_first());
        vstd::utf8::char_is_scalar(s[0]);
    }
}

/// Characters kept by the word cleaner: alphanumerics and whitespace.
pub open spec fn keep_char(c: char) -> bool {
    unicode_alnum(c) || is_ws(c)
}

/// `w` restricted to alphanumerics and whitespace, in order.
pub open spec fn filtered_chars(w: Seq<char>) -> Seq<char>
    decreases w.len(),
{
    if w.len() == 0 {
        Seq::empty()
    } else {
        let front = filtered_chars(w.drop_last());
        if keep_char(w.last()) {
            front.push(w.last())
        } else {
            front
        }
    }
}

/// The characters of `v` that are alphanumeric or whitespace, in order.
pub(crate) fn filter_keep(v: &Vec<char>) -> (r: Vec<char>)
    ensures
        r@ == filtered_chars(v@),
{
    let mut r: Vec<char> = Vec::new();
    let mut i: usize = 0;
    proof {
        assert(filtered_chars(v@.take(0)) =~= Seq::<char>::empty());
    }
    while i < v.len()
        invariant
            i <= v@.len(),
            r@ == filtered_chars(v@.take(i as int)),
        decreases v@.len() - i,
    {
        let c = v[i];
        proof {
            assert(v@.take(i + 1).drop_last() =~= v@.take(i as int));
            assert(v@.take(i + 1).last() == v@[i as int]);
        }
        if is_alnum(c) || is_space(c) {
            r.push(c);
        }
        i = i + 1;
    }
    proof {
        assert(v@.take(v@.len() as int) =~= v@);
    }
    r
}

/// `s` with every occurrence of `pat` removed, scanning left to right
/// without overlap: what `str::replace` with an empty replacement does.
pub open spec fn removed_all(s: Seq<char>, pat: Seq<char>) -> Seq<char>
    recommends
        pat.len() > 0,
    decreases s.len(),
    when pat.len() > 0
    via removed_all_dec
{
    match find_in(s, pat) {
        None => s,
        Some(p) => s.take(p) + removed_all(s.skip(p + pat.len()), pat),
    }
}

#[via_fn]
proof fn removed_all_dec(s: Seq<char>, pat: Seq<char>) {
    lemma_find_in_props(s, pat);
}

/// `v` with every occurrence of `pat` removed.
pub(crate) fn remove_all(v: &Vec<char>, pat: &Vec<char>) -> (r: Vec<char>)
    requires
        pat@.len() > 0,
    ensures
        r@ == removed_all(v@, pat@),
    decreases v@.len(),
{
    let n = v.len();
    match find_substring(v, pat) {
        None => sub_chars(v, 0, n),
        Some(p) => {
            proof {
                lemma_find_in_props(v@, pat@);
            }
            let mut left = sub_chars(v, 0, p);
            let rest = sub_chars(v, p + pat.len(), n);
            let mut tail = remove_all(&rest, pat);
            left.append(&mut tail);
            proof {
                assert(v@.subrange(0, v@.len() as int) =~= v@);
            }
            left
        },
    }
}

/// What `str::to_lowercase` returns for a string with this view.
pub uninterp spec fn lower_of(s: Seq<char>) -> Seq<char>;

/// Relies on str::to_lowercase: the result depends on the characters alone.
#[verifier::external_body]
pub(crate) fn lowercase(s: &str) -> (r: String)
    ensures
        r@ == lower_of(s@),
{
    s.to_lowercase()
}

/// What `char::to_uppercase` yields for `c` (one to three characters).
pub uninterp spec fn upper_of(c: char) -> Seq<char>;

/// Relies on char::to_uppercase: the result depends on the character alone.
#[verifier::external_body]
pub(crate) fn char_upper(c: char) -> (r: String)
    ensures
        r@ == upper_of(c),
{
    c.to_uppercase().to_string()
}

/// Whether `char::is_alphanumeric` accepts `c`.
pub uninterp spec fn unicode_alnum(c: char) -> bool;

/// Relies on char::is_alphanumeric: a fixed character classification.
#[verifier::external_body]
pub(crate) fn is_alnum(c: char) -> (r: bool)
    ensures
        r == unicode_alnum(c),
{
    c.is_alphanumeric()
}

/// Relies on String::push: appends the character to the end of the string.
#[verifier::external_body]
pub(crate) fn push_char(s: &mut String, c: char)
    ensures
        final(s)@ == old(s)@.push(c),
{
    s.push(c)
}

/// Whether `c` is Unicode whitespace.
pub(crate) fn is_space(c: char) -> (r: bool)
    ensures
        r == is_ws(c),
{
    c == ' ' || ('\u{09}' <= c && c <= '\u{0d}') || c == '\u{85}' || c == '\u{a0}'
        || c == '\u{1680}' || ('\u{2000}' <= c && c <= '\u{200a}') || c == '\u{2028}'
        || c == '\u{2029}' || c == '\u{202f}' || c == '\u{205f}' || c == '\u{3000}'
}

/// The characters of `s`, in order.
pub(crate) fn chars_of(s: &str) -> (r: Vec<char>)
    ensures
        r@ == s@,
{
    let n = s.unicode_len();
    let mut r: Vec<char> = Vec::new();
    let mut i: usize = 0;
    while i < n
        invariant
            n == s@.len(),
            i <= n,
            r@ == s@.take(i as int),
        decreases n - i,
    {
        r.push(s.get_char(i));
        proof {
            assert(r@ =~= s@.take(i + 1));
        }
        i = i + 1;
    }
    proof {
        assert(r@ =~= s@);
    }
    r
}

/// A string holding exactly the characters of `v`.
pub(crate) fn string_of(v: &Vec<char>) -> (r: String)
    ensures
        r@ == v@,
{
    let mut r = String::new();
    let mut i: usize = 0;
    while i < v.len()
        invariant
            i <= v@.len(),
            r@ == v@.take(i as int),
        decreases v@.len() - i,
    {
        push_char(&mut r, v[i]);
        proof {
            assert(r@ =~= v@.take(i + 1));
        }
        i = i + 1;
    }
    proof {
        assert(r@ =~= v@);
    }
    r
}

/// The characters of `v` from `a` (inclusive) to `b` (exclusive).
pub(crate) fn sub_chars(v: &Vec<char>, a: usize, b: usize) -> (r: Vec<char>)
    requires
        a <= b <= v@.len(),
    ensures
        r@ == v@.subrange(a as int, b as int),
{
    let mut r: Vec<char> = Vec::new();
    let mut i: usize = a;
    while i < b
        invariant
            a <= i <= b <= v@.len(),
            r@ == v@.subrange(a as int, i as int),
        decreases b - i,
    {
        r.push(v[i]);
        proof {
            assert(r@ =~= v@.subrange(a as int, i + 1));
        }
        i = i + 1;
    }
    r
}

/// Whether `a` and `b` hold the same characters.
pub(crate) fn seq_eq(a: &Vec<char>, b: &Vec<char>) -> (r: bool)
    ensures
        r == (a@ == b@),
{
    if a.len() != b.len() {
        return false;
    }
    let mut i: usize = 0;
    while i < a.len()
        invariant
            a@.len() == b@.len(),
            i <= a@.len(),
            forall|k: int| 0 <= k < i ==> a@[k] == b@[k],
        decreases a@.len() - i,
    {
        if a[i] != b[i] {
            return false;
        }
        i = i + 1;
    }
    proof {
        assert(a@ =~= b@);
    }
    true
}

/// Whether `s` is empty or all whitespace.
pub(crate) fn blank_str(s: &str) -> (r: bool)
    ensures
        r == blank_of(s@),
{
    let n = s.unicode_len();
    let mut i: usize = 0;
    while i < n
        invariant
            n == s@.len(),
            i <= n,
            forall|k: int| 0 <= k < i ==> is_ws(s@[k]),
        decreases n - i,
    {
        if !is_space(s.get_char(i)) {
            return false;
        }
        i = i + 1;
    }
    true
}

proof fn lemma_ws_from_step(s: Seq<char>, i: int)
    requires
        0 <= i < s.len(),
        is_ws(s[i]),
    ensures
        ws_from(s, i) == ws_from(s, i + 1),
{
}

proof fn lemma_ws_back_step(s: Seq<char>, j: int)
    requires
        0 < j <= s.len(),
        is_ws(s[j - 1]),
    ensures
        ws_back(s, j) == ws_back(s, j - 1),
{
}

/// `v` with leading and trailing whitespace removed.
pub(crate) fn trim_chars(v: &Vec<char>) -> (r: Vec<char>)
    ensures
        r@ == trim_of(v@),
{
    let n = v.len();
    let mut a: usize = 0;
    while a < n && is_space(v[a])
        invariant
            n == v@.len(),
            a <= n,
            ws_from(v@, 0) == ws_from(v@, a as int),
        decreases n - a,
    {
        proof {
            lemma_ws_from_step(v@, a as int);
        }
        a = a + 1;
    }
    assert(ws_from(v@, 0) == a as int);
    let mut b: usize = n;
    while b > 0 && is_space(v[b - 1])
        invariant
            n == v@.len(),
            b <= n,
            ws_back(v@, n as int) == ws_back(v@, b as int),
        decreases b,
    {
        proof {
            lemma_ws_back_step(v@, b as int);
        }
        b = b - 1;
    }
    assert(ws_back(v@, n as int) == b as int);
    if a <= b {
        sub_chars(v, a, b)
    } else {
        Vec::new()
    }
}

proof fn lemma_find_from_skip(s: Seq<char>, pat: Seq<char>, i: int)
    requires
        0 <= i <= s.len(),
        forall|k: int| 0 <= k < i ==> !matches_at(s, pat, k),
    ensures
        find_in(s, pat) == find_from(s, pat, i),
    decreases i,
{
    if i > 0 {
        lemma_find_from_skip(s, pat, i - 1);
    }
}

proof fn lemma_find_from_props(s: Seq<char>, pat: Seq<char>, i: int)
    requires
        0 <= i <= s.len(),
    ensures
        match find_from(s, pat, i) {
            Some(p) => i <= p && matches_at(s, pat, p),
            None => forall|k: int| i <= k ==> !matches_at(s, pat, k),
        },
    decreases s.len() - i,
{
    if i + pat.len() <= s.len() && !matches_at(s, pat, i) {
        lemma_find_from_props(s, pat, i + 1);
    }
}

/// Where `find_in` answers, a match really stands there; where it does
/// not, no position matches.
pub proof fn lemma_find_in_props(s: Seq<char>, pat: Seq<char>)
    ensures
        match find_in(s, pat) {
            Some(p) => 0 <= p && matches_at(s, pat, p),
            None => forall|k: int| !matches_at(s, pat, k),
        },
{
    lemma_find_from_props(s, pat, 0);
}

/// Position of the first occurrence of `pat` in `hay`, if any.
pub(crate) fn find_substring(hay: &Vec<char>, pat: &Vec<char>) -> (r: Option<usize>)
    ensures
        match r {
            Some(k) => find_in(hay@, pat@) == Some(k as int),
            None => find_in(hay@, pat@) is None,
        },
{
    let n = hay.len();
    let m = pat.len();
    if m > n {
        return None;
    }
    let mut i: usize = 0;
    while i <= n - m
        invariant
            m <= n,
            n == hay@.len(),
            m == pat@.len(),
            i <= n,
            forall|k: int| 0 <= k < i ==> !matches_at(hay@, pat@, k),
        decreases n - i,
    {
        let mut j: usize = 0;
        let mut hit = true;
        while j < m
            invariant
                n == hay@.len(),
                m == pat@.len(),
                i + m <= n,
                j <= m,
                hit ==> forall|k: int| 0 <= k < j ==> hay@[i + k] == pat@[k],
                !hit ==> !matches_at(hay@, pat@, i as int),
            decreases m - j,
        {
            if hay[i + j] != pat[j] {
                hit = false;
                j = m;
            } else {
                j = j + 1;
            }
        }
        if hit {
            proof {
                assert(matches_at(hay@, pat@, i as int));
                lemma_find_from_skip(hay@, pat@, i as int);
            }
            return Some(i);
        }
        i = i + 1;
    }
    proof {
        lemma_find_from_skip(hay@, pat@, i as int);
        assert(find_from(hay@, pat@, i as int) is None);
    }
    None
}

/// Whether `pat` occurs in `hay`.
pub(crate) fn has_substring(hay: &Vec<char>, pat: &Vec<char>) -> (r: bool)
    ensures
        r == has_sub(hay@, pat@),
{
    match find_substring(hay, pat) {
        Some(_) => true,
        None => false,
    }
}

/// Whether `v` begins with `pat`.
pub(crate) fn starts_with_chars(v: &Vec<char>, pat: &Vec<char>) -> (r: bool)
    ensures
        r == starts_with_s(v@, pat@),
{
    let m = pat.len();
    if m > v.len() {
        return false;
    }
    let mut j: usize = 0;
    while j < m
        invariant
            m == pat@.len(),
            m <= v@.len(),
            j <= m,
            forall|k: int| 0 <= k < j ==> v@[k] == pat@[k],
        decreases m - j,
    {
        if v[j] != pat[j] {
            return false;
        }
        j = j + 1;
    }
    true
}

/// Whether `v` ends with `pat`.
pub(crate) fn ends_with_chars(v: &Vec<char>, pat: &Vec<char>) -> (r: bool)
    ensures
        r == ends_with_s(v@, pat@),
{
    let m = pat.len();
    let n = v.len();
    if m > n {
        return false;
    }
    let off = n - m;
    let mut j: usize = 0;
    while j < m
        invariant
            m == pat@.len(),
            n == v@.len(),
            m <= n,
            off == n - m,
            j <= m,
            forall|k: int| 0 <= k < j ==> v@[off + k] == pat@[k],
        decreases m - j,
    {
        if v[off + j] != pat[j] {
            return false;
        }
        j = j + 1;
    }
    true
}

proof fn lemma_count_ch_prefix(s: Seq<char>, c: char, i: int)
    requires
        0 <= i < s.len(),
    ensures
        count_ch(s.take(i + 1), c) == count_ch(s.take(i), c) + (if s[i] == c {
            1int
        } else {
            0int
        }),
    decreases i,
{
    if i == 0 {
        assert(s.take(1).drop_first() =~= s.take(0));
    } else {
        lemma_count_ch_prefix(s.drop_first(), c, i - 1);
        assert(s.take(i + 1).drop_first() =~= s.drop_first().take(i));
        assert(s.take(i).drop_first() =~= s.drop_first().take(i - 1));
    }
}

proof fn lemma_count_ch_bound(s: Seq<char>, c: char)
    ensures
        0 <= count_ch(s, c) <= s.len(),
    decreases s.len(),
{
    if s.len() > 0 {
        lemma_count_ch_bound(s.drop_first(), c);
    }
}

/// Number of occurrences of `c` in `v`.
pub(crate) fn count_char_in(v: &Vec<char>, c: char) -> (r: usize)
    ensures
        r as int == count_ch(v@, c),
{
    let mut r: usize = 0;
    let mut i: usize = 0;
    while i < v.len()
        invariant
            i <= v@.len(),
            r as int == count_ch(v@.take(i as int), c),
            r <= i,
        decreases v@.len() - i,
    {
        proof {
            lemma_count_ch_prefix(v@, c, i as int);
        }
        if v[i] == c {
            r = r + 1;
        }
        i = i + 1;
    }
    proof {
        assert(v@.take(v@.len() as int) =~= v@);
    }
    r
}

proof fn lemma_byte_len_nonneg(s: Seq<char>)
    ensures
        byte_len_of(s) >= 0,
    decreases s.len(),
{
    if s.len() > 0 {
        lemma_byte_len_nonneg(s.drop_first());
    }
}

proof fn lemma_byte_len_prefix(s: Seq<char>, i: int)
    requires
        0 <= i < s.len(),
    ensures
        byte_len_of(s.take(i + 1)) == byte_len_of(s.take(i)) + utf8_len(s[i]),
    decreases i,
{
    if i == 0 {
        assert(s.take(1).drop_first() =~= s.take(0));
    } else {
        lemma_byte_len_prefix(s.drop_first(), i - 1);
        assert(s.take(i + 1).drop_first() =~= s.drop_first().take(i));
        assert(s.take(i).drop_first() =~= s.drop_first().take(i - 1));
    }
}

proof fn lemma_byte_len_monotone(s: Seq<char>, i: int)
    requires
        0 <= i <= s.len(),
    ensures
        byte_len_of(s.take(i)) <= byte_len_of(s),
    decreases s.len() - i,
{
    if i == s.len() {
        assert(s.take(i) =~= s);
    } else {
        lemma_byte_len_prefix(s, i);
        lemma_byte_len_monotone(s, i + 1);
    }
}

/// Number of UTF-8 bytes that `c` takes.
pub(crate) fn utf8_len_of(c: char) -> (r: u32)
    ensures
        r as int == utf8_len(c),
{
    let u = c as u32;
    if u < 0x80 {
        1
    } else if u < 0x800 {
        2
    } else if u < 0x10000 {
        3
    } else {
        4
    }
}

/// Whether the UTF-8 encoding of `v` is longer than two bytes.
pub(crate) fn longer_than_two_bytes(v: &Vec<char>) -> (r: bool)
    ensures
        r == (byte_len_of(v@) > 2),
{
    let mut acc: u32 = 0;
    let mut i: usize = 0;
    while i < v.len()
        invariant
            i <= v@.len(),
            acc as int == byte_len_of(v@.take(i as int)),
            acc <= 2,
        decreases v@.len() - i,
    {
        proof {
            lemma_byte_len_prefix(v@, i as int);
        }
        let step = utf8_len_of(v[i]);
        if acc + step > 2 {
            proof {
                lemma_byte_len_monotone(v@, i + 1);
            }
            return true;
        }
        acc = acc + step;
        i = i + 1;
    }
    proof {
        assert(v@.take(v@.len() as int) =~= v@);
    }
    false
}

proof fn lemma_words_from_ws(s: Seq<char>, i: int)
    requires
        0 <= i < s.len(),
        is_ws(s[i]),
    ensures
        words_from(s, i) == words_from(s, i + 1),
{
}

proof fn lemma_word_end_step(s: Seq<char>, i: int, j: int)
    requires
        0 <= i <= j < s.len(),
        forall|k: int| i <= k < j ==> !is_ws(s[k]),
        !is_ws(s[j]) == false,
    ensures
        word_end(s, i) == j,
    decreases j - i,
{
    if i < j {
        lemma_word_end_step(s, i + 1, j);
    }
}

proof fn lemma_word_end_all(s: Seq<char>, i: int)
    requires
        0 <= i <= s.len(),
        forall|k: int| i <= k < s.len() ==> !is_ws(s[k]),
    ensures
        word_end(s, i) == s.len(),
    decreases s.len() - i,
{
    if i < s.len() {
        lemma_word_end_all(s, i + 1);
    }
}

/// The words of `v`, in order: maximal whitespace-free runs.
pub(crate) fn split_words(v: &Vec<char>) -> (r: Vec<Vec<char>>)
    ensures
        word_views(r@) == words_of(v@),
{
    let n = v.len();
    let mut r: Vec<Vec<char>> = Vec::new();
    let mut i: usize = 0;
    while i < n
        invariant
            n == v@.len(),
            i <= n,
            word_views(r@) + words_from(v@, i as int) == words_of(v@),
        decreases n - i,
    {
        if is_space(v[i]) {
            proof {
                lemma_words_from_ws(v@, i as int);
            }
            i = i + 1;
        } else {
            let start = i;
            let mut j: usize = i;
            while j < n && !is_space(v[j])
                invariant
                    n == v@.len(),
                    start <= j <= n,
                    forall|k: int| start <= k < j ==> !is_ws(v@[k]),
                decreases n - j,
            {
                j = j + 1;
            }
            proof {
                if j < n {
                    lemma_word_end_step(v@, start as int, j as int);
                } else {
                    lemma_word_end_all(v@, start as int);
                }
                assert(word_end(v@, start as int) == j as int);
            }
            let w = sub_chars(v, start, j);
            r.push(w);
            proof {
                assert(word_views(r@) =~= word_views(r@.drop_last()) + seq![v@.subrange(
                    start as int,
                    j as int,
                )]);
                assert(word_views(r@) + words_from(v@, j as int) =~= words_of(v@));
            }
            i = j;
        }
    }
    proof {
        assert(word_views(r@) =~= words_of(v@));
    }
    r
}

} // verus!
