//! A canonical text encoding of catalogs, for the cache that persists and
//! reloads them: named, length-prefixed fields, decoded back without loss.
//! The decoder accepts exactly what the encoder writes; the round-trip law
//! at the end of this module proves that decoding an encoded catalog
//! yields it back, field for field.

use vstd::prelude::*;

use crate::models::{CatalogModel, EntryModel, MetadataModel, SectionModel};
use crate::search::{BucketModel, IndexModel, LocationModel, SearchPriority};
use crate::text::{chars_of, matches_at, string_of, sub_chars};

verus! {

/// The digit character for a value between zero and nine.
pub open spec fn digit_char(d: int) -> char {
    if d == 0 {
        '0'
    } else if d == 1 {
        '1'
    } else if d == 2 {
        '2'
    } else if d == 3 {
        '3'
    } else if d == 4 {
        '4'
    } else if d == 5 {
        '5'
    } else if d == 6 {
        '6'
    } else if d == 7 {
        '7'
    } else if d == 8 {
        '8'
    } else {
        '9'
    }
}

/// The value of a digit character.
pub open spec fn digit_val(c: char) -> int {
    if c == '0' {
        0
    } else if c == '1' {
        1
    } else if c == '2' {
        2
    } else if c == '3' {
        3
    } else if c == '4' {
        4
    } else if c == '5' {
        5
    } else if c == '6' {
        6
    } else if c == '7' {
        7
    } else if c == '8' {
        8
    } else {
        9
    }
}

pub open spec fn is_digit(c: char) -> bool {
    '0' <= c && c <= '9'
}

/// The decimal digits of `n`, most significant first.
pub open spec fn digits_of(n: int) -> Seq<char>
    recommends
        n >= 0,
    decreases n,
    when n >= 0
{
    if n < 10 {
        seq![digit_char(n)]
    } else {
        digits_of(n / 10).push(digit_char(n % 10))
    }
}

/// The value of a digit run, most significant first.
pub open spec fn val_of(ds: Seq<char>) -> int
    decreases ds.len(),
{
    if ds.len() == 0 {
        0
    } else {
        val_of(ds.drop_last()) * 10 + digit_val(ds.last())
    }
}

/// A number encodes as its decimal digits followed by a colon.
pub open spec fn enc_num(n: int) -> Seq<char> {
    digits_of(n) + seq![':']
}

/// First position at or after `i` whose character is not a digit.
pub open spec fn digit_run_end(s: Seq<char>, i: int) -> int
    recommends
        0 <= i <= s.len(),
    decreases s.len() - i,
    when 0 <= i <= s.len()
{
    if i >= s.len() {
        i
    } else if !is_digit(s[i]) {
        i
    } else {
        digit_run_end(s, i + 1)
    }
}

/// Decode a number at position `i`: a non-empty digit run, a colon, and a
/// value no larger than the machine limit.
pub open spec fn dec_num(s: Seq<char>, i: int) -> Option<(int, int)>
    recommends
        0 <= i <= s.len(),
{
    let j = digit_run_end(s, i);
    if j == i {
        None
    } else if j >= s.len() || s[j] != ':' {
        None
    } else {
        let v = val_of(s.subrange(i, j));
        if v > usize::MAX as int {
            None
        } else {
            Some((v, j + 1))
        }
    }
}

proof fn lemma_digits_are_digits(n: int)
    requires
        n >= 0,
    ensures
        digits_of(n).len() >= 1,
        forall|k: int| 0 <= k < digits_of(n).len() ==> is_digit(#[trigger] digits_of(n)[k]),
        forall|k: int| 0 <= k < digits_of(n).len() ==> digits_of(n)[k] != ':',
    decreases n,
{
    if n >= 10 {
        lemma_digits_are_digits(n / 10);
        assert forall|k: int| 0 <= k < digits_of(n).len() implies is_digit(
            #[trigger] digits_of(n)[k],
        ) by {
            if k < digits_of(n / 10).len() {
                assert(digits_of(n)[k] == digits_of(n / 10)[k]);
            }
        }
        assert forall|k: int| 0 <= k < digits_of(n).len() implies #[trigger] digits_of(n)[k]
            != ':' by {
            if k < digits_of(n / 10).len() {
                assert(digits_of(n)[k] == digits_of(n / 10)[k]);
            }
        }
    }
}

proof fn lemma_digit_round(d: int)
    requires
        0 <= d < 10,
    ensures
        digit_val(digit_char(d)) == d,
{
}

proof fn lemma_val_of_digits(n: int)
    requires
        n >= 0,
    ensures
        val_of(digits_of(n)) == n,
    decreases n,
{
    if n < 10 {
        lemma_digit_round(n);
        assert(digits_of(n).drop_last() =~= Seq::<char>::empty());
        assert(digits_of(n).last() == digit_char(n));
        assert(val_of(digits_of(n)) == val_of(Seq::<char>::empty()) * 10 + digit_val(
            digit_char(n),
        ));
    } else {
        lemma_val_of_digits(n / 10);
        lemma_digit_round(n % 10);
        assert(digits_of(n).drop_last() =~= digits_of(n / 10));
        assert(digits_of(n).last() == digit_char(n % 10));
        assert(val_of(digits_of(n)) == val_of(digits_of(n / 10)) * 10 + digit_val(
            digit_char(n % 10),
        ));
    }
}

proof fn lemma_digit_run_stops(s: Seq<char>, i: int, j: int)
    requires
        0 <= i <= j <= s.len(),
        forall|k: int| i <= k < j ==> is_digit(#[trigger] s[k]),
        j == s.len() || !is_digit(s[j]),
    ensures
        digit_run_end(s, i) == j,
    decreases j - i,
{
    if i < j {
        lemma_digit_run_stops(s, i + 1, j);
    }
}

/// Decoding recovers an encoded number, whatever follows it.
proof fn lemma_dec_num(s: Seq<char>, i: int, n: int)
    requires
        0 <= n <= usize::MAX as int,
        0 <= i,
        i + enc_num(n).len() <= s.len(),
        matches_at(s, enc_num(n), i),
    ensures
        dec_num(s, i) == Some((n, i + enc_num(n).len())),
{
    let ds = digits_of(n);
    lemma_digits_are_digits(n);
    assert forall|k: int| i <= k < i + ds.len() implies is_digit(#[trigger] s[k]) by {
        assert(s[k] == enc_num(n)[k - i]);
        assert(enc_num(n)[k - i] == ds[k - i]);
    }
    assert(s[i + ds.len()] == enc_num(n)[ds.len() as int]);
    assert(s[i + ds.len()] == ':');
    lemma_digit_run_stops(s, i, i + ds.len());
    assert(s.subrange(i, i + ds.len()) =~= ds) by {
        assert forall|k: int| 0 <= k < ds.len() implies s.subrange(i, i + ds.len())[k]
            == ds[k] by {
            assert(s[i + k] == enc_num(n)[k]);
        }
    }
    lemma_val_of_digits(n);
}

/// The digit character for `d`.
fn digit_char_of(d: usize) -> (r: char)
    requires
        d < 10,
    ensures
        r == digit_char(d as int),
{
    match d {
        0 => '0',
        1 => '1',
        2 => '2',
        3 => '3',
        4 => '4',
        5 => '5',
        6 => '6',
        7 => '7',
        8 => '8',
        _ => '9',
    }
}

/// The value of a digit character.
fn digit_val_of(c: char) -> (r: u32)
    requires
        is_digit(c),
    ensures
        r == digit_val(c),
{
    match c {
        '0' => 0,
        '1' => 1,
        '2' => 2,
        '3' => 3,
        '4' => 4,
        '5' => 5,
        '6' => 6,
        '7' => 7,
        '8' => 8,
        _ => 9,
    }
}

/// Append the decimal digits of `n` to `out`.
fn write_digits(out: &mut Vec<char>, n: usize)
    ensures
        final(out)@ == old(out)@ + digits_of(n as int),
    decreases n,
{
    if n < 10 {
        out.push(digit_char_of(n));
        proof {
            assert(out@ =~= old(out)@ + digits_of(n as int));
        }
    } else {
        write_digits(out, n / 10);
        out.push(digit_char_of(n % 10));
        proof {
            assert(out@ =~= old(out)@ + digits_of(n as int));
        }
    }
}

/// Append an encoded number to `out`.
fn write_num(out: &mut Vec<char>, n: usize)
    ensures
        final(out)@ == old(out)@ + enc_num(n as int),
{
    write_digits(out, n);
    out.push(':');
    proof {
        assert(out@ =~= old(out)@ + enc_num(n as int));
    }
}

fn is_digit_exec(c: char) -> (r: bool)
    ensures
        r == is_digit(c),
{
    '0' <= c && c <= '9'
}

proof fn lemma_val_of_nonneg(ds: Seq<char>)
    ensures
        val_of(ds) >= 0,
    decreases ds.len(),
{
    if ds.len() > 0 {
        lemma_val_of_nonneg(ds.drop_last());
    }
}

proof fn lemma_val_of_monotone(s: Seq<char>, i: int, j: int, end: int)
    requires
        0 <= i <= j <= end <= s.len(),
    ensures
        val_of(s.subrange(i, end)) >= val_of(s.subrange(i, j)),
    decreases end - j,
{
    if j < end {
        lemma_val_of_nonneg(s.subrange(i, j));
        assert(s.subrange(i, j + 1).drop_last() =~= s.subrange(i, j));
        lemma_val_of_nonneg(s.subrange(i, j + 1));
        assert(val_of(s.subrange(i, j + 1)) >= val_of(s.subrange(i, j)));
        lemma_val_of_monotone(s, i, j + 1, end);
    } else {
        assert(s.subrange(i, end) =~= s.subrange(i, j));
    }
}

/// Skip a fixed tag at position `i`.
pub open spec fn expect(s: Seq<char>, i: int, tag: Seq<char>) -> Option<int> {
    if matches_at(s, tag, i) {
        Some(i + tag.len())
    } else {
        None
    }
}

proof fn lemma_matches_split(s: Seq<char>, a: Seq<char>, b: Seq<char>, i: int)
    requires
        matches_at(s, a + b, i),
    ensures
        matches_at(s, a, i),
        matches_at(s, b, i + a.len()),
{
    assert forall|k: int| 0 <= k < a.len() implies s[i + k] == a[k] by {
        assert(s[i + k] == (a + b)[k]);
    }
    assert forall|k: int| 0 <= k < b.len() implies s[i + a.len() + k] == b[k] by {
        assert(s[i + a.len() + k] == (a + b)[a.len() + k]);
    }
}

/// A string encodes as its length followed by its characters.
pub open spec fn enc_str(v: Seq<char>) -> Seq<char> {
    enc_num(v.len() as int) + v
}

/// Decode a string at position `i`.
pub open spec fn dec_str(s: Seq<char>, i: int) -> Option<(Seq<char>, int)> {
    match dec_num(s, i) {
        None => None,
        Some((n, j)) => if j + n <= s.len() {
            Some((s.subrange(j, j + n), j + n))
        } else {
            None
        },
    }
}

proof fn lemma_dec_str(s: Seq<char>, i: int, v: Seq<char>)
    requires
        v.len() <= usize::MAX as int,
        matches_at(s, enc_str(v), i),
    ensures
        dec_str(s, i) == Some((v, i + enc_str(v).len())),
{
    lemma_matches_split(s, enc_num(v.len() as int), v, i);
    lemma_dec_num(s, i, v.len() as int);
    let j = i + enc_num(v.len() as int).len();
    assert(s.subrange(j, j + v.len()) =~= v);
}

/// An optional string: a dash for nothing, a plus sign and the string.
pub open spec fn enc_opt_str(o: Option<Seq<char>>) -> Seq<char> {
    match o {
        None => seq!['-'],
        Some(v) => seq!['+'] + enc_str(v),
    }
}

pub open spec fn dec_opt_str(s: Seq<char>, i: int) -> Option<(Option<Seq<char>>, int)> {
    if i < 0 || i >= s.len() {
        None
    } else if s[i] == '-' {
        Some((None, i + 1))
    } else if s[i] == '+' {
        match dec_str(s, i + 1) {
            None => None,
            Some((v, j)) => Some((Some(v), j)),
        }
    } else {
        None
    }
}

proof fn lemma_dec_opt_str(s: Seq<char>, i: int, o: Option<Seq<char>>)
    requires
        (o matches Some(v) ==> v.len() <= usize::MAX as int),
        matches_at(s, enc_opt_str(o), i),
    ensures
        dec_opt_str(s, i) == Some((o, i + enc_opt_str(o).len())),
{
    match o {
        None => {
            assert(s[i] == enc_opt_str(o)[0]);
        },
        Some(v) => {
            lemma_matches_split(s, seq!['+'], enc_str(v), i);
            assert(s[i + 0] == seq!['+'][0]);
            assert(s[i] == '+');
            lemma_dec_str(s, i + 1, v);
        },
    }
}

/// An optional number, in the same shape.
pub open spec fn enc_opt_num(o: Option<int>) -> Seq<char> {
    match o {
        None => seq!['-'],
        Some(v) => seq!['+'] + enc_num(v),
    }
}

pub open spec fn dec_opt_num(s: Seq<char>, i: int) -> Option<(Option<int>, int)> {
    if i < 0 || i >= s.len() {
        None
    } else if s[i] == '-' {
        Some((None, i + 1))
    } else if s[i] == '+' {
        match dec_num(s, i + 1) {
            None => None,
            Some((v, j)) => Some((Some(v), j)),
        }
    } else {
        None
    }
}

proof fn lemma_dec_opt_num(s: Seq<char>, i: int, o: Option<int>)
    requires
        (o matches Some(v) ==> 0 <= v <= usize::MAX as int),
        matches_at(s, enc_opt_num(o), i),
    ensures
        dec_opt_num(s, i) == Some((o, i + enc_opt_num(o).len())),
{
    match o {
        None => {
            assert(s[i] == enc_opt_num(o)[0]);
        },
        Some(v) => {
            lemma_matches_split(s, seq!['+'], enc_num(v), i);
            assert(s[i + 0] == seq!['+'][0]);
            assert(s[i] == '+');
            lemma_dec_num(s, i + 1, v);
        },
    }
}

/// A priority encodes as one character.
pub open spec fn enc_priority(p: SearchPriority) -> Seq<char> {
    match p {
        SearchPriority::RepositoryName => seq!['n'],
        SearchPriority::Description => seq!['d'],
        SearchPriority::RawContent => seq!['r'],
    }
}

pub open spec fn dec_priority(s: Seq<char>, i: int) -> Option<(SearchPriority, int)> {
    if i < 0 || i >= s.len() {
        None
    } else if s[i] == 'n' {
        Some((SearchPriority::RepositoryName, i + 1))
    } else if s[i] == 'd' {
        Some((SearchPriority::Description, i + 1))
    } else if s[i] == 'r' {
        Some((SearchPriority::RawContent, i + 1))
    } else {
        None
    }
}

proof fn lemma_dec_priority(s: Seq<char>, i: int, p: SearchPriority)
    requires
        matches_at(s, enc_priority(p), i),
    ensures
        dec_priority(s, i) == Some((p, i + 1)),
{
    assert(s[i] == enc_priority(p)[0]);
}

/// The tag encodings, one concatenation per field, grouped to the right so
/// that decoding peels one piece at a time.
pub open spec fn enc_tags(ts: Seq<Seq<char>>) -> Seq<char> {
    enc_num(ts.len() as int) + enc_tags_from(ts, 0)
}

pub open spec fn enc_tags_from(ts: Seq<Seq<char>>, k: int) -> Seq<char>
    recommends
        0 <= k <= ts.len(),
    decreases ts.len() - k,
    when 0 <= k <= ts.len()
{
    if k >= ts.len() {
        Seq::empty()
    } else {
        enc_str(ts[k]) + enc_tags_from(ts, k + 1)
    }
}

pub open spec fn dec_tags_n(s: Seq<char>, i: int, n: int) -> Option<(Seq<Seq<char>>, int)>
    decreases n,
    when n >= 0
{
    if n <= 0 {
        Some((Seq::empty(), i))
    } else {
        match dec_str(s, i) {
            None => None,
            Some((v, j)) => match dec_tags_n(s, j, n - 1) {
                None => None,
                Some((vs, j2)) => Some((seq![v] + vs, j2)),
            },
        }
    }
}

pub open spec fn dec_tags(s: Seq<char>, i: int) -> Option<(Seq<Seq<char>>, int)> {
    match dec_num(s, i) {
        None => None,
        Some((n, j)) => dec_tags_n(s, j, n),
    }
}

pub open spec fn tags_bounded(ts: Seq<Seq<char>>) -> bool {
    &&& ts.len() <= usize::MAX as int
    &&& forall|k: int| 0 <= k < ts.len() ==> (#[trigger] ts[k]).len() <= usize::MAX as int
}

proof fn lemma_dec_tags_from(s: Seq<char>, i: int, ts: Seq<Seq<char>>, k: int)
    requires
        0 <= k <= ts.len(),
        tags_bounded(ts),
        matches_at(s, enc_tags_from(ts, k), i),
    ensures
        dec_tags_n(s, i, ts.len() - k) == Some((ts.skip(k), i + enc_tags_from(ts, k).len())),
    decreases ts.len() - k,
{
    if k == ts.len() {
        assert(ts.skip(k) =~= Seq::<Seq<char>>::empty());
    } else {
        lemma_matches_split(s, enc_str(ts[k]), enc_tags_from(ts, k + 1), i);
        lemma_dec_str(s, i, ts[k]);
        lemma_dec_tags_from(s, i + enc_str(ts[k]).len(), ts, k + 1);
        assert(seq![ts[k]] + ts.skip(k + 1) =~= ts.skip(k));
    }
}

proof fn lemma_dec_tags(s: Seq<char>, i: int, ts: Seq<Seq<char>>)
    requires
        tags_bounded(ts),
        matches_at(s, enc_tags(ts), i),
    ensures
        dec_tags(s, i) == Some((ts, i + enc_tags(ts).len())),
{
    lemma_matches_split(s, enc_num(ts.len() as int), enc_tags_from(ts, 0), i);
    lemma_dec_num(s, i, ts.len() as int);
    lemma_dec_tags_from(s, i + enc_num(ts.len() as int).len(), ts, 0);
    assert(ts.skip(0) =~= ts);
}

/// One entry, named field by named field.
pub open spec fn enc_entry(e: EntryModel) -> Seq<char> {
    "title="@ + (enc_str(e.title) + ("url="@ + (enc_str(e.url) + ("description="@ + (enc_str(
        e.description,
    ) + ("tags="@ + enc_tags(e.tags)))))))
}

pub open spec fn dec_entry(s: Seq<char>, i: int) -> Option<(EntryModel, int)> {
    match expect(s, i, "title="@) {
        None => None,
        Some(i1) => match dec_str(s, i1) {
            None => None,
            Some((title, i2)) => match expect(s, i2, "url="@) {
                None => None,
                Some(i3) => match dec_str(s, i3) {
                    None => None,
                    Some((url, i4)) => match expect(s, i4, "description="@) {
                        None => None,
                        Some(i5) => match dec_str(s, i5) {
                            None => None,
                            Some((description, i6)) => match expect(s, i6, "tags="@) {
                                None => None,
                                Some(i7) => match dec_tags(s, i7) {
                                    None => None,
                                    Some((tags, i8)) => Some(
                                        (EntryModel { title, url, description, tags }, i8),
                                    ),
                                },
                            },
                        },
                    },
                },
            },
        },
    }
}

pub open spec fn entry_bounded(e: EntryModel) -> bool {
    &&& e.title.len() <= usize::MAX as int
    &&& e.url.len() <= usize::MAX as int
    &&& e.description.len() <= usize::MAX as int
    &&& tags_bounded(e.tags)
}

proof fn lemma_dec_entry(s: Seq<char>, i: int, e: EntryModel)
    requires
        entry_bounded(e),
        matches_at(s, enc_entry(e), i),
    ensures
        dec_entry(s, i) == Some((e, i + enc_entry(e).len())),
{
    let r1 = enc_str(e.title) + ("url="@ + (enc_str(e.url) + ("description="@ + (enc_str(
        e.description,
    ) + ("tags="@ + enc_tags(e.tags))))));
    lemma_matches_split(s, "title="@, r1, i);
    let i1 = i + "title="@.len();
    let r2 = "url="@ + (enc_str(e.url) + ("description="@ + (enc_str(e.description) + ("tags="@
        + enc_tags(e.tags)))));
    lemma_matches_split(s, enc_str(e.title), r2, i1);
    lemma_dec_str(s, i1, e.title);
    let i2 = i1 + enc_str(e.title).len();
    let r3 = enc_str(e.url) + ("description="@ + (enc_str(e.description) + ("tags="@ + enc_tags(
        e.tags,
    ))));
    lemma_matches_split(s, "url="@, r3, i2);
    let i3 = i2 + "url="@.len();
    let r4 = "description="@ + (enc_str(e.description) + ("tags="@ + enc_tags(e.tags)));
    lemma_matches_split(s, enc_str(e.url), r4, i3);
    lemma_dec_str(s, i3, e.url);
    let i4 = i3 + enc_str(e.url).len();
    let r5 = enc_str(e.description) + ("tags="@ + enc_tags(e.tags));
    lemma_matches_split(s, "description="@, r5, i4);
    let i5 = i4 + "description="@.len();
    let r6 = "tags="@ + enc_tags(e.tags);
    lemma_matches_split(s, enc_str(e.description), r6, i5);
    lemma_dec_str(s, i5, e.description);
    let i6 = i5 + enc_str(e.description).len();
    lemma_matches_split(s, "tags="@, enc_tags(e.tags), i6);
    let i7 = i6 + "tags="@.len();
    lemma_dec_tags(s, i7, e.tags);
    assert(dec_entry(s, i)->Some_0.0 =~~= e);
}

/// Entry lists.
pub open spec fn enc_entries_from(es: Seq<EntryModel>, k: int) -> Seq<char>
    recommends
        0 <= k <= es.len(),
    decreases es.len() - k,
    when 0 <= k <= es.len()
{
    if k >= es.len() {
        Seq::empty()
    } else {
        enc_entry(es[k]) + enc_entries_from(es, k + 1)
    }
}

pub open spec fn enc_entries(es: Seq<EntryModel>) -> Seq<char> {
    enc_num(es.len() as int) + enc_entries_from(es, 0)
}

pub open spec fn dec_entries_n(s: Seq<char>, i: int, n: int) -> Option<(Seq<EntryModel>, int)>
    decreases n,
    when n >= 0
{
    if n <= 0 {
        Some((Seq::empty(), i))
    } else {
        match dec_entry(s, i) {
            None => None,
            Some((v, j)) => match dec_entries_n(s, j, n - 1) {
                None => None,
                Some((vs, j2)) => Some((seq![v] + vs, j2)),
            },
        }
    }
}

pub open spec fn dec_entries(s: Seq<char>, i: int) -> Option<(Seq<EntryModel>, int)> {
    match dec_num(s, i) {
        None => None,
        Some((n, j)) => dec_entries_n(s, j, n),
    }
}

pub open spec fn entries_bounded(es: Seq<EntryModel>) -> bool {
    &&& es.len() <= usize::MAX as int
    &&& forall|k: int| 0 <= k < es.len() ==> entry_bounded(#[trigger] es[k])
}

proof fn lemma_dec_entries_from(s: Seq<char>, i: int, es: Seq<EntryModel>, k: int)
    requires
        0 <= k <= es.len(),
        entries_bounded(es),
        matches_at(s, enc_entries_from(es, k), i),
    ensures
        dec_entries_n(s, i, es.len() - k) == Some((es.skip(k), i + enc_entries_from(es, k).len())),
    decreases es.len() - k,
{
    if k == es.len() {
        assert(es.skip(k) =~= Seq::<EntryModel>::empty());
    } else {
        lemma_matches_split(s, enc_entry(es[k]), enc_entries_from(es, k + 1), i);
        lemma_dec_entry(s, i, es[k]);
        lemma_dec_entries_from(s, i + enc_entry(es[k]).len(), es, k + 1);
        assert(seq![es[k]] + es.skip(k + 1) =~= es.skip(k));
    }
}

proof fn lemma_dec_entries(s: Seq<char>, i: int, es: Seq<EntryModel>)
    requires
        entries_bounded(es),
        matches_at(s, enc_entries(es), i),
    ensures
        dec_entries(s, i) == Some((es, i + enc_entries(es).len())),
{
    lemma_matches_split(s, enc_num(es.len() as int), enc_entries_from(es, 0), i);
    lemma_dec_num(s, i, es.len() as int);
    lemma_dec_entries_from(s, i + enc_num(es.len() as int).len(), es, 0);
    assert(es.skip(0) =~= es);
}

/// One section.
pub open spec fn enc_section(sec: SectionModel) -> Seq<char> {
    "title="@ + (enc_str(sec.title) + ("entries="@ + (enc_entries(sec.entries) + ("raw_content="@
        + enc_str(sec.raw)))))
}

pub open spec fn dec_section(s: Seq<char>, i: int) -> Option<(SectionModel, int)> {
    match expect(s, i, "title="@) {
        None => None,
        Some(i1) => match dec_str(s, i1) {
            None => None,
            Some((title, i2)) => match expect(s, i2, "entries="@) {
                None => None,
                Some(i3) => match dec_entries(s, i3) {
                    None => None,
                    Some((entries, i4)) => match expect(s, i4, "raw_content="@) {
                        None => None,
                        Some(i5) => match dec_str(s, i5) {
                            None => None,
                            Some((raw, i6)) => Some((SectionModel { title, entries, raw }, i6)),
                        },
                    },
                },
            },
        },
    }
}

pub open spec fn section_bounded(sec: SectionModel) -> bool {
    &&& sec.title.len() <= usize::MAX as int
    &&& sec.raw.len() <= usize::MAX as int
    &&& entries_bounded(sec.entries)
}

proof fn lemma_dec_section(s: Seq<char>, i: int, sec: SectionModel)
    requires
        section_bounded(sec),
        matches_at(s, enc_section(sec), i),
    ensures
        dec_section(s, i) == Some((sec, i + enc_section(sec).len())),
{
    let r1 = enc_str(sec.title) + ("entries="@ + (enc_entries(sec.entries) + ("raw_content="@
        + enc_str(sec.raw))));
    lemma_matches_split(s, "title="@, r1, i);
    let i1 = i + "title="@.len();
    let r2 = "entries="@ + (enc_entries(sec.entries) + ("raw_content="@ + enc_str(sec.raw)));
    lemma_matches_split(s, enc_str(sec.title), r2, i1);
    lemma_dec_str(s, i1, sec.title);
    let i2 = i1 + enc_str(sec.title).len();
    let r3 = enc_entries(sec.entries) + ("raw_content="@ + enc_str(sec.raw));
    lemma_matches_split(s, "entries="@, r3, i2);
    let i3 = i2 + "entries="@.len();
    let r4 = "raw_content="@ + enc_str(sec.raw);
    lemma_matches_split(s, enc_entries(sec.entries), r4, i3);
    lemma_dec_entries(s, i3, sec.entries);
    let i4 = i3 + enc_entries(sec.entries).len();
    lemma_matches_split(s, "raw_content="@, enc_str(sec.raw), i4);
    let i5 = i4 + "raw_content="@.len();
    lemma_dec_str(s, i5, sec.raw);
    assert(dec_section(s, i)->Some_0.0 =~~= sec);
}

/// Section lists.
pub open spec fn enc_sections_from(ss: Seq<SectionModel>, k: int) -> Seq<char>
    recommends
        0 <= k <= ss.len(),
    decreases ss.len() - k,
    when 0 <= k <= ss.len()
{
    if k >= ss.len() {
        Seq::empty()
    } else {
        enc_section(ss[k]) + enc_sections_from(ss, k + 1)
    }
}

pub open spec fn enc_sections(ss: Seq<SectionModel>) -> Seq<char> {
    enc_num(ss.len() as int) + enc_sections_from(ss, 0)
}

pub open spec fn dec_sections_n(s: Seq<char>, i: int, n: int) -> Option<(Seq<SectionModel>, int)>
    decreases n,
    when n >= 0
{
    if n <= 0 {
        Some((Seq::empty(), i))
    } else {
        match dec_section(s, i) {
            None => None,
            Some((v, j)) => match dec_sections_n(s, j, n - 1) {
                None => None,
                Some((vs, j2)) => Some((seq![v] + vs, j2)),
            },
        }
    }
}

pub open spec fn dec_sections(s: Seq<char>, i: int) -> Option<(Seq<SectionModel>, int)> {
    match dec_num(s, i) {
        None => None,
        Some((n, j)) => dec_sections_n(s, j, n),
    }
}

pub open spec fn sections_bounded(ss: Seq<SectionModel>) -> bool {
    &&& ss.len() <= usize::MAX as int
    &&& forall|k: int| 0 <= k < ss.len() ==> section_bounded(#[trigger] ss[k])
}

proof fn lemma_dec_sections_from(s: Seq<char>, i: int, ss: Seq<SectionModel>, k: int)
    requires
        0 <= k <= ss.len(),
        sections_bounded(ss),
        matches_at(s, enc_sections_from(ss, k), i),
    ensures
        dec_sections_n(s, i, ss.len() - k) == Some(
            (ss.skip(k), i + enc_sections_from(ss, k).len()),
        ),
    decreases ss.len() - k,
{
    if k == ss.len() {
        assert(ss.skip(k) =~= Seq::<SectionModel>::empty());
    } else {
        lemma_matches_split(s, enc_section(ss[k]), enc_sections_from(ss, k + 1), i);
        lemma_dec_section(s, i, ss[k]);
        lemma_dec_sections_from(s, i + enc_section(ss[k]).len(), ss, k + 1);
        assert(seq![ss[k]] + ss.skip(k + 1) =~= ss.skip(k));
    }
}

proof fn lemma_dec_sections(s: Seq<char>, i: int, ss: Seq<SectionModel>)
    requires
        sections_bounded(ss),
        matches_at(s, enc_sections(ss), i),
    ensures
        dec_sections(s, i) == Some((ss, i + enc_sections(ss).len())),
{
    lemma_matches_split(s, enc_num(ss.len() as int), enc_sections_from(ss, 0), i);
    lemma_dec_num(s, i, ss.len() as int);
    lemma_dec_sections_from(s, i + enc_num(ss.len() as int).len(), ss, 0);
    assert(ss.skip(0) =~= ss);
}

/// One search location.
pub open spec fn enc_location(l: LocationModel) -> Seq<char> {
    "section_index="@ + (enc_num(l.section) + ("entry_index="@ + (enc_opt_num(l.entry)
        + ("line_content="@ + (enc_str(l.line) + ("start_pos="@ + (enc_num(l.start) + ("end_pos="@
        + (enc_num(l.end) + ("search_priority="@ + (enc_priority(l.priority) + ("github_url="@
        + enc_opt_str(l.url)))))))))))))
}

pub open spec fn dec_location(s: Seq<char>, i: int) -> Option<(LocationModel, int)> {
    match expect(s, i, "section_index="@) {
        None => None,
        Some(i1) => match dec_num(s, i1) {
            None => None,
            Some((section, i2)) => match expect(s, i2, "entry_index="@) {
                None => None,
                Some(i3) => match dec_opt_num(s, i3) {
                    None => None,
                    Some((entry, i4)) => match expect(s, i4, "line_content="@) {
                        None => None,
                        Some(i5) => match dec_str(s, i5) {
                            None => None,
                            Some((line, i6)) => match expect(s, i6, "start_pos="@) {
                                None => None,
                                Some(i7) => match dec_num(s, i7) {
                                    None => None,
                                    Some((start, i8)) => match expect(s, i8, "end_pos="@) {
                                        None => None,
                                        Some(i9) => match dec_num(s, i9) {
                                            None => None,
                                            Some((end, i10)) => match expect(
                                                s,
                                                i10,
                                                "search_priority="@,
                                            ) {
                                                None => None,
                                                Some(i11) => match dec_priority(s, i11) {
                                                    None => None,
                                                    Some((priority, i12)) => match expect(
                                                        s,
                                                        i12,
                                                        "github_url="@,
                                                    ) {
                                                        None => None,
                                                        Some(i13) => match dec_opt_str(s, i13) {
                                                            None => None,
                                                            Some((url, i14)) => Some(
                                                                (
                                                                    LocationModel {
                                                                        section,
                                                                        entry,
                                                                        line,
                                                                        start,
                                                                        end,
                                                                        priority,
                                                                        url,
                                                                    },
                                                                    i14,
                                                                ),
                                                            ),
                                                        },
                                                    },
                                                },
                                            },
                                        },
                                    },
                                },
                            },
                        },
                    },
                },
            },
        },
    }
}

pub open spec fn location_bounded(l: LocationModel) -> bool {
    &&& 0 <= l.section <= usize::MAX as int
    &&& (l.entry matches Some(v) ==> 0 <= v <= usize::MAX as int)
    &&& l.line.len() <= usize::MAX as int
    &&& 0 <= l.start <= usize::MAX as int
    &&& 0 <= l.end <= usize::MAX as int
    &&& (l.url matches Some(v) ==> v.len() <= usize::MAX as int)
}

proof fn lemma_dec_location(s: Seq<char>, i: int, l: LocationModel)
    requires
        location_bounded(l),
        matches_at(s, enc_location(l), i),
    ensures
        dec_location(s, i) == Some((l, i + enc_location(l).len())),
{
    let r1 = enc_num(l.section) + ("entry_index="@ + (enc_opt_num(l.entry) + ("line_content="@
        + (enc_str(l.line) + ("start_pos="@ + (enc_num(l.start) + ("end_pos="@ + (enc_num(l.end)
        + ("search_priority="@ + (enc_priority(l.priority) + ("github_url="@ + enc_opt_str(
        l.url,
    ))))))))))));
    lemma_matches_split(s, "section_index="@, r1, i);
    let i1 = i + "section_index="@.len();
    let r2 = "entry_index="@ + (enc_opt_num(l.entry) + ("line_content="@ + (enc_str(l.line)
        + ("start_pos="@ + (enc_num(l.start) + ("end_pos="@ + (enc_num(l.end)
        + ("search_priority="@ + (enc_priority(l.priority) + ("github_url="@ + enc_opt_str(
        l.url,
    )))))))))));
    lemma_matches_split(s, enc_num(l.section), r2, i1);
    lemma_dec_num(s, i1, l.section);
    let i2 = i1 + enc_num(l.section).len();
    let r3 = enc_opt_num(l.entry) + ("line_content="@ + (enc_str(l.line) + ("start_pos="@
        + (enc_num(l.start) + ("end_pos="@ + (enc_num(l.end) + ("search_priority="@
        + (enc_priority(l.priority) + ("github_url="@ + enc_opt_str(l.url))))))))));
    lemma_matches_split(s, "entry_index="@, r3, i2);
    let i3 = i2 + "entry_index="@.len();
    let r4 = "line_content="@ + (enc_str(l.line) + ("start_pos="@ + (enc_num(l.start)
        + ("end_pos="@ + (enc_num(l.end) + ("search_priority="@ + (enc_priority(l.priority)
        + ("github_url="@ + enc_opt_str(l.url)))))))));
    lemma_matches_split(s, enc_opt_num(l.entry), r4, i3);
    lemma_dec_opt_num(s, i3, l.entry);
    let i4 = i3 + enc_opt_num(l.entry).len();
    let r5 = enc_str(l.line) + ("start_pos="@ + (enc_num(l.start) + ("end_pos="@ + (enc_num(l.end)
        + ("search_priority="@ + (enc_priority(l.priority) + ("github_url="@ + enc_opt_str(
        l.url,
    ))))))));
    lemma_matches_split(s, "line_content="@, r5, i4);
    let i5 = i4 + "line_content="@.len();
    let r6 = "start_pos="@ + (enc_num(l.start) + ("end_pos="@ + (enc_num(l.end)
        + ("search_priority="@ + (enc_priority(l.priority) + ("github_url="@ + enc_opt_str(
        l.url,
    )))))));
    lemma_matches_split(s, enc_str(l.line), r6, i5);
    lemma_dec_str(s, i5, l.line);
    let i6 = i5 + enc_str(l.line).len();
    let r7 = enc_num(l.start) + ("end_pos="@ + (enc_num(l.end) + ("search_priority="@
        + (enc_priority(l.priority) + ("github_url="@ + enc_opt_str(l.url))))));
    lemma_matches_split(s, "start_pos="@, r7, i6);
    let i7 = i6 + "start_pos="@.len();
    let r8 = "end_pos="@ + (enc_num(l.end) + ("search_priority="@ + (enc_priority(l.priority)
        + ("github_url="@ + enc_opt_str(l.url)))));
    lemma_matches_split(s, enc_num(l.start), r8, i7);
    lemma_dec_num(s, i7, l.start);
    let i8 = i7 + enc_num(l.start).len();
    let r9 = enc_num(l.end) + ("search_priority="@ + (enc_priority(l.priority) + ("github_url="@
        + enc_opt_str(l.url))));
    lemma_matches_split(s, "end_pos="@, r9, i8);
    let i9 = i8 + "end_pos="@.len();
    let r10 = "search_priority="@ + (enc_priority(l.priority) + ("github_url="@ + enc_opt_str(
        l.url,
    )));
    lemma_matches_split(s, enc_num(l.end), r10, i9);
    lemma_dec_num(s, i9, l.end);
    let i10 = i9 + enc_num(l.end).len();
    let r11 = enc_priority(l.priority) + ("github_url="@ + enc_opt_str(l.url));
    lemma_matches_split(s, "search_priority="@, r11, i10);
    let i11 = i10 + "search_priority="@.len();
    let r12 = "github_url="@ + enc_opt_str(l.url);
    lemma_matches_split(s, enc_priority(l.priority), r12, i11);
    lemma_dec_priority(s, i11, l.priority);
    let i12 = i11 + enc_priority(l.priority).len();
    lemma_matches_split(s, "github_url="@, enc_opt_str(l.url), i12);
    let i13 = i12 + "github_url="@.len();
    lemma_dec_opt_str(s, i13, l.url);
    assert(dec_location(s, i)->Some_0.0 =~~= l);
}

/// Location lists.
pub open spec fn enc_locs_from(ls: Seq<LocationModel>, k: int) -> Seq<char>
    recommends
        0 <= k <= ls.len(),
    decreases ls.len() - k,
    when 0 <= k <= ls.len()
{
    if k >= ls.len() {
        Seq::empty()
    } else {
        enc_location(ls[k]) + enc_locs_from(ls, k + 1)
    }
}

pub open spec fn enc_locs(ls: Seq<LocationModel>) -> Seq<char> {
    enc_num(ls.len() as int) + enc_locs_from(ls, 0)
}

pub open spec fn dec_locs_n(s: Seq<char>, i: int, n: int) -> Option<(Seq<LocationModel>, int)>
    decreases n,
    when n >= 0
{
    if n <= 0 {
        Some((Seq::empty(), i))
    } else {
        match dec_location(s, i) {
            None => None,
            Some((v, j)) => match dec_locs_n(s, j, n - 1) {
                None => None,
                Some((vs, j2)) => Some((seq![v] + vs, j2)),
            },
        }
    }
}

pub open spec fn dec_locs(s: Seq<char>, i: int) -> Option<(Seq<LocationModel>, int)> {
    match dec_num(s, i) {
        None => None,
        Some((n, j)) => dec_locs_n(s, j, n),
    }
}

pub open spec fn locs_bounded(ls: Seq<LocationModel>) -> bool {
    &&& ls.len() <= usize::MAX as int
    &&& forall|k: int| 0 <= k < ls.len() ==> location_bounded(#[trigger] ls[k])
}

proof fn lemma_dec_locs_from(s: Seq<char>, i: int, ls: Seq<LocationModel>, k: int)
    requires
        0 <= k <= ls.len(),
        locs_bounded(ls),
        matches_at(s, enc_locs_from(ls, k), i),
    ensures
        dec_locs_n(s, i, ls.len() - k) == Some((ls.skip(k), i + enc_locs_from(ls, k).len())),
    decreases ls.len() - k,
{
    if k == ls.len() {
        assert(ls.skip(k) =~= Seq::<LocationModel>::empty());
    } else {
        lemma_matches_split(s, enc_location(ls[k]), enc_locs_from(ls, k + 1), i);
        lemma_dec_location(s, i, ls[k]);
        lemma_dec_locs_from(s, i + enc_location(ls[k]).len(), ls, k + 1);
        assert(seq![ls[k]] + ls.skip(k + 1) =~= ls.skip(k));
    }
}

proof fn lemma_dec_locs(s: Seq<char>, i: int, ls: Seq<LocationModel>)
    requires
        locs_bounded(ls),
        matches_at(s, enc_locs(ls), i),
    ensures
        dec_locs(s, i) == Some((ls, i + enc_locs(ls).len())),
{
    lemma_matches_split(s, enc_num(ls.len() as int), enc_locs_from(ls, 0), i);
    lemma_dec_num(s, i, ls.len() as int);
    lemma_dec_locs_from(s, i + enc_num(ls.len() as int).len(), ls, 0);
    assert(ls.skip(0) =~= ls);
}

/// One index bucket.
pub open spec fn enc_bucket(b: BucketModel) -> Seq<char> {
    "term="@ + (enc_str(b.term) + ("locations="@ + enc_locs(b.locs)))
}

pub open spec fn dec_bucket(s: Seq<char>, i: int) -> Option<(BucketModel, int)> {
    match expect(s, i, "term="@) {
        None => None,
        Some(i1) => match dec_str(s, i1) {
            None => None,
            Some((term, i2)) => match expect(s, i2, "locations="@) {
                None => None,
                Some(i3) => match dec_locs(s, i3) {
                    None => None,
                    Some((locs, i4)) => Some((BucketModel { term, locs }, i4)),
                },
            },
        },
    }
}

pub open spec fn bucket_bounded(b: BucketModel) -> bool {
    &&& b.term.len() <= usize::MAX as int
    &&& locs_bounded(b.locs)
}

proof fn lemma_dec_bucket(s: Seq<char>, i: int, b: BucketModel)
    requires
        bucket_bounded(b),
        matches_at(s, enc_bucket(b), i),
    ensures
        dec_bucket(s, i) == Some((b, i + enc_bucket(b).len())),
{
    let r1 = enc_str(b.term) + ("locations="@ + enc_locs(b.locs));
    lemma_matches_split(s, "term="@, r1, i);
    let i1 = i + "term="@.len();
    let r2 = "locations="@ + enc_locs(b.locs);
    lemma_matches_split(s, enc_str(b.term), r2, i1);
    lemma_dec_str(s, i1, b.term);
    let i2 = i1 + enc_str(b.term).len();
    lemma_matches_split(s, "locations="@, enc_locs(b.locs), i2);
    let i3 = i2 + "locations="@.len();
    lemma_dec_locs(s, i3, b.locs);
    assert(dec_bucket(s, i)->Some_0.0 =~~= b);
}

/// Bucket lists.
pub open spec fn enc_buckets_from(bs: Seq<BucketModel>, k: int) -> Seq<char>
    recommends
        0 <= k <= bs.len(),
    decreases bs.len() - k,
    when 0 <= k <= bs.len()
{
    if k >= bs.len() {
        Seq::empty()
    } else {
        enc_bucket(bs[k]) + enc_buckets_from(bs, k + 1)
    }
}

pub open spec fn enc_buckets(bs: Seq<BucketModel>) -> Seq<char> {
    enc_num(bs.len() as int) + enc_buckets_from(bs, 0)
}

pub open spec fn dec_buckets_n(s: Seq<char>, i: int, n: int) -> Option<(Seq<BucketModel>, int)>
    decreases n,
    when n >= 0
{
    if n <= 0 {
        Some((Seq::empty(), i))
    } else {
        match dec_bucket(s, i) {
            None => None,
            Some((v, j)) => match dec_buckets_n(s, j, n - 1) {
                None => None,
                Some((vs, j2)) => Some((seq![v] + vs, j2)),
            },
        }
    }
}

pub open spec fn dec_buckets(s: Seq<char>, i: int) -> Option<(Seq<BucketModel>, int)> {
    match dec_num(s, i) {
        None => None,
        Some((n, j)) => dec_buckets_n(s, j, n),
    }
}

pub open spec fn buckets_bounded(bs: Seq<BucketModel>) -> bool {
    &&& bs.len() <= usize::MAX as int
    &&& forall|k: int| 0 <= k < bs.len() ==> bucket_bounded(#[trigger] bs[k])
}

proof fn lemma_dec_buckets_from(s: Seq<char>, i: int, bs: Seq<BucketModel>, k: int)
    requires
        0 <= k <= bs.len(),
        buckets_bounded(bs),
        matches_at(s, enc_buckets_from(bs, k), i),
    ensures
        dec_buckets_n(s, i, bs.len() - k) == Some((bs.skip(k), i + enc_buckets_from(bs, k).len())),
    decreases bs.len() - k,
{
    if k == bs.len() {
        assert(bs.skip(k) =~= Seq::<BucketModel>::empty());
    } else {
        lemma_matches_split(s, enc_bucket(bs[k]), enc_buckets_from(bs, k + 1), i);
        lemma_dec_bucket(s, i, bs[k]);
        lemma_dec_buckets_from(s, i + enc_bucket(bs[k]).len(), bs, k + 1);
        assert(seq![bs[k]] + bs.skip(k + 1) =~= bs.skip(k));
    }
}

proof fn lemma_dec_buckets(s: Seq<char>, i: int, bs: Seq<BucketModel>)
    requires
        buckets_bounded(bs),
        matches_at(s, enc_buckets(bs), i),
    ensures
        dec_buckets(s, i) == Some((bs, i + enc_buckets(bs).len())),
{
    lemma_matches_split(s, enc_num(bs.len() as int), enc_buckets_from(bs, 0), i);
    lemma_dec_num(s, i, bs.len() as int);
    lemma_dec_buckets_from(s, i + enc_num(bs.len() as int).len(), bs, 0);
    assert(bs.skip(0) =~= bs);
}

/// The whole index.
pub open spec fn enc_index(ix: IndexModel) -> Seq<char> {
    "terms="@ + (enc_buckets(ix.buckets) + ("total_terms="@ + enc_num(ix.total)))
}

pub open spec fn dec_index(s: Seq<char>, i: int) -> Option<(IndexModel, int)> {
    match expect(s, i, "terms="@) {
        None => None,
        Some(i1) => match dec_buckets(s, i1) {
            None => None,
            Some((buckets, i2)) => match expect(s, i2, "total_terms="@) {
                None => None,
                Some(i3) => match dec_num(s, i3) {
                    None => None,
                    Some((total, i4)) => Some((IndexModel { buckets, total }, i4)),
                },
            },
        },
    }
}

pub open spec fn index_bounded(ix: IndexModel) -> bool {
    &&& buckets_bounded(ix.buckets)
    &&& 0 <= ix.total <= usize::MAX as int
}

proof fn lemma_dec_index(s: Seq<char>, i: int, ix: IndexModel)
    requires
        index_bounded(ix),
        matches_at(s, enc_index(ix), i),
    ensures
        dec_index(s, i) == Some((ix, i + enc_index(ix).len())),
{
    let r1 = enc_buckets(ix.buckets) + ("total_terms="@ + enc_num(ix.total));
    lemma_matches_split(s, "terms="@, r1, i);
    let i1 = i + "terms="@.len();
    let r2 = "total_terms="@ + enc_num(ix.total);
    lemma_matches_split(s, enc_buckets(ix.buckets), r2, i1);
    lemma_dec_buckets(s, i1, ix.buckets);
    let i2 = i1 + enc_buckets(ix.buckets).len();
    lemma_matches_split(s, "total_terms="@, enc_num(ix.total), i2);
    let i3 = i2 + "total_terms="@.len();
    lemma_dec_num(s, i3, ix.total);
    assert(dec_index(s, i)->Some_0.0 =~~= ix);
}

/// The document metadata.
pub open spec fn enc_metadata(m: MetadataModel) -> Seq<char> {
    "title="@ + (enc_str(m.title) + ("description="@ + (enc_str(m.description)
        + ("last_updated="@ + (enc_opt_str(m.last_updated) + ("total_entries="@ + enc_num(
        m.total,
    )))))))
}

pub open spec fn dec_metadata(s: Seq<char>, i: int) -> Option<(MetadataModel, int)> {
    match expect(s, i, "title="@) {
        None => None,
        Some(i1) => match dec_str(s, i1) {
            None => None,
            Some((title, i2)) => match expect(s, i2, "description="@) {
                None => None,
                Some(i3) => match dec_str(s, i3) {
                    None => None,
                    Some((description, i4)) => match expect(s, i4, "last_updated="@) {
                        None => None,
                        Some(i5) => match dec_opt_str(s, i5) {
                            None => None,
                            Some((last_updated, i6)) => match expect(s, i6, "total_entries="@) {
                                None => None,
                                Some(i7) => match dec_num(s, i7) {
                                    None => None,
                                    Some((total, i8)) => Some(
                                        (MetadataModel { title, description, last_updated, total }, i8),
                                    ),
                                },
                            },
                        },
                    },
                },
            },
        },
    }
}

pub open spec fn metadata_bounded(m: MetadataModel) -> bool {
    &&& m.title.len() <= usize::MAX as int
    &&& m.description.len() <= usize::MAX as int
    &&& (m.last_updated matches Some(v) ==> v.len() <= usize::MAX as int)
    &&& 0 <= m.total <= usize::MAX as int
}

proof fn lemma_dec_metadata(s: Seq<char>, i: int, m: MetadataModel)
    requires
        metadata_bounded(m),
        matches_at(s, enc_metadata(m), i),
    ensures
        dec_metadata(s, i) == Some((m, i + enc_metadata(m).len())),
{
    let r1 = enc_str(m.title) + ("description="@ + (enc_str(m.description) + ("last_updated="@
        + (enc_opt_str(m.last_updated) + ("total_entries="@ + enc_num(m.total))))));
    lemma_matches_split(s, "title="@, r1, i);
    let i1 = i + "title="@.len();
    let r2 = "description="@ + (enc_str(m.description) + ("last_updated="@ + (enc_opt_str(
        m.last_updated,
    ) + ("total_entries="@ + enc_num(m.total)))));
    lemma_matches_split(s, enc_str(m.title), r2, i1);
    lemma_dec_str(s, i1, m.title);
    let i2 = i1 + enc_str(m.title).len();
    let r3 = enc_str(m.description) + ("last_updated="@ + (enc_opt_str(m.last_updated)
        + ("total_entries="@ + enc_num(m.total))));
    lemma_matches_split(s, "description="@, r3, i2);
    let i3 = i2 + "description="@.len();
    let r4 = "last_updated="@ + (enc_opt_str(m.last_updated) + ("total_entries="@ + enc_num(
        m.total,
    )));
    lemma_matches_split(s, enc_str(m.description), r4, i3);
    lemma_dec_str(s, i3, m.description);
    let i4 = i3 + enc_str(m.description).len();
    let r5 = enc_opt_str(m.last_updated) + ("total_entries="@ + enc_num(m.total));
    lemma_matches_split(s, "last_updated="@, r5, i4);
    let i5 = i4 + "last_updated="@.len();
    let r6 = "total_entries="@ + enc_num(m.total);
    lemma_matches_split(s, enc_opt_str(m.last_updated), r6, i5);
    lemma_dec_opt_str(s, i5, m.last_updated);
    let i6 = i5 + enc_opt_str(m.last_updated).len();
    lemma_matches_split(s, "total_entries="@, enc_num(m.total), i6);
    let i7 = i6 + "total_entries="@.len();
    lemma_dec_num(s, i7, m.total);
    assert(dec_metadata(s, i)->Some_0.0 =~~= m);
}

/// A whole catalog: sections, index, metadata.
pub open spec fn enc_catalog(c: CatalogModel) -> Seq<char> {
    "sections="@ + (enc_sections(c.sections) + ("search_index="@ + (enc_index(c.index)
        + ("metadata="@ + enc_metadata(c.metadata)))))
}

pub open spec fn dec_catalog(s: Seq<char>, i: int) -> Option<(CatalogModel, int)> {
    match expect(s, i, "sections="@) {
        None => None,
        Some(i1) => match dec_sections(s, i1) {
            None => None,
            Some((sections, i2)) => match expect(s, i2, "search_index="@) {
                None => None,
                Some(i3) => match dec_index(s, i3) {
                    None => None,
                    Some((index, i4)) => match expect(s, i4, "metadata="@) {
                        None => None,
                        Some(i5) => match dec_metadata(s, i5) {
                            None => None,
                            Some((metadata, i6)) => Some(
                                (CatalogModel { sections, index, metadata }, i6),
                            ),
                        },
                    },
                },
            },
        },
    }
}

/// Every length and number of the catalog fits the machine, which is true
/// of any catalog actually held in memory.
pub open spec fn catalog_bounded(c: CatalogModel) -> bool {
    &&& sections_bounded(c.sections)
    &&& index_bounded(c.index)
    &&& metadata_bounded(c.metadata)
}

/// Law: decoding an encoded catalog yields it back, every section, entry,
/// index bucket, location and metadata field intact.
#[verifier::rlimit(50)]
pub proof fn lemma_codec_round_trip(c: CatalogModel)
    requires
        catalog_bounded(c),
    ensures
        dec_catalog(enc_catalog(c), 0) == Some((c, enc_catalog(c).len() as int)),
{
    let s = enc_catalog(c);
    assert(matches_at(s, s, 0));
    let r1 = enc_sections(c.sections) + ("search_index="@ + (enc_index(c.index) + ("metadata="@
        + enc_metadata(c.metadata))));
    lemma_matches_split(s, "sections="@, r1, 0);
    let i1: int = "sections="@.len() as int;
    let r2 = "search_index="@ + (enc_index(c.index) + ("metadata="@ + enc_metadata(c.metadata)));
    lemma_matches_split(s, enc_sections(c.sections), r2, i1);
    lemma_dec_sections(s, i1, c.sections);
    let i2 = i1 + enc_sections(c.sections).len();
    let r3 = enc_index(c.index) + ("metadata="@ + enc_metadata(c.metadata));
    lemma_matches_split(s, "search_index="@, r3, i2);
    let i3 = i2 + "search_index="@.len();
    let r4 = "metadata="@ + enc_metadata(c.metadata);
    lemma_matches_split(s, enc_index(c.index), r4, i3);
    lemma_dec_index(s, i3, c.index);
    let i4 = i3 + enc_index(c.index).len();
    lemma_matches_split(s, "metadata="@, enc_metadata(c.metadata), i4);
    let i5 = i4 + "metadata="@.len();
    lemma_dec_metadata(s, i5, c.metadata);
    assert(dec_catalog(s, 0)->Some_0.0 =~~= c);
}

/// Read an encoded number at `pos`.
fn read_num(s: &Vec<char>, pos: usize) -> (r: Option<(usize, usize)>)
    requires
        pos <= s@.len(),
    ensures
        match r {
            Some(v) => dec_num(s@, pos as int) == Some((v.0 as int, v.1 as int)) && pos < v.1
                <= s@.len(),
            None => dec_num(s@, pos as int) is None,
        },
{
    let n = s.len();
    let mut j: usize = pos;
    let mut acc: usize = 0;
    let mut overflowed = false;
    while j < n && is_digit_exec(s[j])
        invariant
            n == s@.len(),
            pos <= j <= n,
            forall|k: int| pos <= k < j ==> is_digit(#[trigger] s@[k]),
            !overflowed ==> acc as int == val_of(s@.subrange(pos as int, j as int)),
            overflowed ==> val_of(s@.subrange(pos as int, j as int)) > usize::MAX as int,
        decreases n - j,
    {
        proof {
            assert(s@.subrange(pos as int, j + 1).drop_last() =~= s@.subrange(
                pos as int,
                j as int,
            ));
            lemma_val_of_nonneg(s@.subrange(pos as int, j as int));
        }
        let d = digit_val_of(s[j]);
        if !overflowed {
            if acc > (usize::MAX - d as usize) / 10 {
                overflowed = true;
                proof {
                    assert(val_of(s@.subrange(pos as int, j + 1)) > usize::MAX as int) by (nonlinear_arith)
                        requires
                            val_of(s@.subrange(pos as int, j + 1)) == acc as int * 10
                                + digit_val(s@[j as int]),
                            acc as int > ((usize::MAX - d as usize) / 10) as int,
                            acc as int * 10 + d as int > usize::MAX as int ==> val_of(
                                s@.subrange(pos as int, j + 1),
                            ) > usize::MAX as int,
                            d == digit_val(s@[j as int]),
                            d < 10,
                            acc as int > (usize::MAX as int - d as int) / 10,
                    ;
                }
            } else {
                acc = acc * 10 + d as usize;
            }
        } else {
            proof {
                lemma_val_of_nonneg(s@.subrange(pos as int, j as int));
                assert(val_of(s@.subrange(pos as int, j + 1)) > usize::MAX as int) by (nonlinear_arith)
                    requires
                        val_of(s@.subrange(pos as int, j + 1)) == val_of(
                            s@.subrange(pos as int, j as int),
                        ) * 10 + digit_val(s@[j as int]),
                        val_of(s@.subrange(pos as int, j as int)) > usize::MAX as int,
                        digit_val(s@[j as int]) >= 0,
                ;
            }
        }
        j = j + 1;
    }
    proof {
        lemma_digit_run_stops(s@, pos as int, j as int);
    }
    if j == pos {
        return None;
    }
    if j >= n {
        return None;
    }
    if s[j] != ':' {
        return None;
    }
    if overflowed {
        return None;
    }
    Some((acc, j + 1))
}

/// Append a fixed tag to `out`.
fn write_tag(out: &mut Vec<char>, tag: &str)
    ensures
        final(out)@ == old(out)@ + tag@,
{
    let mut tv = chars_of(tag);
    out.append(&mut tv);
}

/// Append an encoded string to `out`.
fn write_str(out: &mut Vec<char>, v: &str)
    ensures
        final(out)@ == old(out)@ + enc_str(v@),
{
    let n = v.unicode_len();
    write_num(out, n);
    let mut tv = chars_of(v);
    out.append(&mut tv);
    proof {
        assert(out@ =~= old(out)@ + enc_str(v@));
    }
}

/// Skip a fixed tag at `pos`.
fn read_tag(s: &Vec<char>, pos: usize, tag: &str) -> (r: Option<usize>)
    requires
        pos <= s@.len(),
    ensures
        match r {
            Some(j) => expect(s@, pos as int, tag@) == Some(j as int) && pos <= j <= s@.len(),
            None => expect(s@, pos as int, tag@) is None,
        },
{
    let tv = chars_of(tag);
    let m = tv.len();
    let slen = s.len();
    if m > slen - pos {
        return None;
    }
    let mut j: usize = 0;
    while j < m
        invariant
            m == tag@.len(),
            tv@ == tag@,
            slen == s@.len(),
            pos + m <= slen,
            j <= m,
            forall|k: int| 0 <= k < j ==> s@[pos + k] == tag@[k],
        decreases m - j,
    {
        if s[pos + j] != tv[j] {
            return None;
        }
        j = j + 1;
    }
    assert(matches_at(s@, tag@, pos as int));
    Some(pos + m)
}

/// Read an encoded string at `pos`.
fn read_str(s: &Vec<char>, pos: usize) -> (r: Option<(String, usize)>)
    requires
        pos <= s@.len(),
    ensures
        match r {
            Some(v) => dec_str(s@, pos as int) == Some((v.0@, v.1 as int)) && pos <= v.1
                <= s@.len(),
            None => dec_str(s@, pos as int) is None,
        },
{
    match read_num(s, pos) {
        None => None,
        Some((n, j)) => {
            if n > s.len() - j {
                return None;
            }
            let sub = sub_chars(s, j, j + n);
            Some((string_of(&sub), j + n))
        },
    }
}

/// Append an encoded optional string to `out`.
fn write_opt_str(out: &mut Vec<char>, o: &Option<String>)
    ensures
        final(out)@ == old(out)@ + enc_opt_str(crate::search::opt_chars(*o)),
{
    match o {
        None => {
            out.push('-');
            proof {
                assert(out@ =~= old(out)@ + enc_opt_str(None));
            }
        },
        Some(v) => {
            out.push('+');
            write_str(out, v.as_str());
            proof {
                assert(out@ =~= old(out)@ + enc_opt_str(Some(v@)));
            }
        },
    }
}

/// Read an encoded optional string at `pos`.
fn read_opt_str(s: &Vec<char>, pos: usize) -> (r: Option<(Option<String>, usize)>)
    requires
        pos <= s@.len(),
    ensures
        match r {
            Some(v) => dec_opt_str(s@, pos as int) == Some(
                (crate::search::opt_chars(v.0), v.1 as int),
            ) && pos <= v.1 <= s@.len(),
            None => dec_opt_str(s@, pos as int) is None,
        },
{
    if pos >= s.len() {
        return None;
    }
    let c = s[pos];
    if c == '-' {
        Some((None, pos + 1))
    } else if c == '+' {
        match read_str(s, pos + 1) {
            None => None,
            Some((v, j)) => Some((Some(v), j)),
        }
    } else {
        None
    }
}

/// Append an encoded optional number to `out`.
fn write_opt_num(out: &mut Vec<char>, o: &Option<usize>)
    ensures
        final(out)@ == old(out)@ + enc_opt_num(crate::search::opt_int(*o)),
{
    match o {
        None => {
            out.push('-');
            proof {
                assert(out@ =~= old(out)@ + enc_opt_num(None));
            }
        },
        Some(v) => {
            out.push('+');
            write_num(out, *v);
            proof {
                assert(out@ =~= old(out)@ + enc_opt_num(Some(*v as int)));
            }
        },
    }
}

/// Read an encoded optional number at `pos`.
fn read_opt_num(s: &Vec<char>, pos: usize) -> (r: Option<(Option<usize>, usize)>)
    requires
        pos <= s@.len(),
    ensures
        match r {
            Some(v) => dec_opt_num(s@, pos as int) == Some(
                (crate::search::opt_int(v.0), v.1 as int),
            ) && pos <= v.1 <= s@.len(),
            None => dec_opt_num(s@, pos as int) is None,
        },
{
    if pos >= s.len() {
        return None;
    }
    let c = s[pos];
    if c == '-' {
        Some((None, pos + 1))
    } else if c == '+' {
        match read_num(s, pos + 1) {
            None => None,
            Some((v, j)) => Some((Some(v), j)),
        }
    } else {
        None
    }
}

/// Append an encoded priority to `out`.
fn write_priority(out: &mut Vec<char>, p: &SearchPriority)
    ensures
        final(out)@ == old(out)@ + enc_priority(*p),
{
    match p {
        SearchPriority::RepositoryName => out.push('n'),
        SearchPriority::Description => out.push('d'),
        SearchPriority::RawContent => out.push('r'),
    }
    proof {
        assert(out@ =~= old(out)@ + enc_priority(*p));
    }
}

/// Read an encoded priority at `pos`.
fn read_priority(s: &Vec<char>, pos: usize) -> (r: Option<(SearchPriority, usize)>)
    requires
        pos <= s@.len(),
    ensures
        match r {
            Some(v) => dec_priority(s@, pos as int) == Some((v.0, v.1 as int)) && pos <= v.1
                <= s@.len(),
            None => dec_priority(s@, pos as int) is None,
        },
{
    if pos >= s.len() {
        return None;
    }
    let c = s[pos];
    if c == 'n' {
        Some((SearchPriority::RepositoryName, pos + 1))
    } else if c == 'd' {
        Some((SearchPriority::Description, pos + 1))
    } else if c == 'r' {
        Some((SearchPriority::RawContent, pos + 1))
    } else {
        None
    }
}

/// Append the encodings of the tags from `k` on.
fn write_tags_from(out: &mut Vec<char>, ts: &Vec<String>, k: usize)
    requires
        k <= ts@.len(),
    ensures
        final(out)@ == old(out)@ + enc_tags_from(crate::models::str_views(ts@), k as int),
    decreases ts@.len() - k,
{
    if k < ts.len() {
        write_str(out, ts[k].as_str());
        write_tags_from(out, ts, k + 1);
        proof {
            assert(out@ =~= old(out)@ + enc_tags_from(crate::models::str_views(ts@), k as int));
        }
    } else {
        proof {
            assert(out@ =~= old(out)@ + enc_tags_from(crate::models::str_views(ts@), k as int));
        }
    }
}

/// Append an encoded tag list to `out`.
fn write_tags(out: &mut Vec<char>, ts: &Vec<String>)
    ensures
        final(out)@ == old(out)@ + enc_tags(crate::models::str_views(ts@)),
{
    write_num(out, ts.len());
    write_tags_from(out, ts, 0);
    proof {
        assert(out@ =~= old(out)@ + enc_tags(crate::models::str_views(ts@)));
    }
}

/// Read `n` encoded tags at `pos`.
fn read_tags_n(s: &Vec<char>, pos: usize, n: usize) -> (r: Option<(Vec<String>, usize)>)
    requires
        pos <= s@.len(),
    ensures
        match r {
            Some(v) => dec_tags_n(s@, pos as int, n as int) == Some(
                (crate::models::str_views(v.0@), v.1 as int),
            ) && pos <= v.1 <= s@.len(),
            None => dec_tags_n(s@, pos as int, n as int) is None,
        },
    decreases n,
{
    if n == 0 {
        let empty: Vec<String> = Vec::new();
        proof {
            assert(crate::models::str_views(empty@) =~= Seq::<Seq<char>>::empty());
        }
        return Some((empty, pos));
    }
    match read_str(s, pos) {
        None => None,
        Some((v, j)) => match read_tags_n(s, j, n - 1) {
            None => None,
            Some((mut vs, j2)) => {
                let ghost before = vs@;
                let ghost v_view = v@;
                vs.insert(0, v);
                proof {
                    assert(crate::models::str_views(vs@) =~~= seq![v_view]
                        + crate::models::str_views(before));
                }
                Some((vs, j2))
            },
        },
    }
}

/// Read an encoded tag list at `pos`.
fn read_tags(s: &Vec<char>, pos: usize) -> (r: Option<(Vec<String>, usize)>)
    requires
        pos <= s@.len(),
    ensures
        match r {
            Some(v) => dec_tags(s@, pos as int) == Some(
                (crate::models::str_views(v.0@), v.1 as int),
            ) && pos <= v.1 <= s@.len(),
            None => dec_tags(s@, pos as int) is None,
        },
{
    match read_num(s, pos) {
        None => None,
        Some((n, j)) => read_tags_n(s, j, n),
    }
}

/// Append one encoded entry to `out`.
fn write_entry(out: &mut Vec<char>, e: &crate::models::RepositoryEntry)
    ensures
        final(out)@ == old(out)@ + enc_entry(e@),
{
    write_tag(out, "title=");
    write_str(out, e.title.as_str());
    write_tag(out, "url=");
    write_str(out, e.url.as_str());
    write_tag(out, "description=");
    write_str(out, e.description.as_str());
    write_tag(out, "tags=");
    write_tags(out, &e.tags);
    proof {
        assert(out@ =~= old(out)@ + enc_entry(e@));
    }
}

/// Read one encoded entry at `pos`.
fn read_entry(s: &Vec<char>, pos: usize) -> (r: Option<(crate::models::RepositoryEntry, usize)>)
    requires
        pos <= s@.len(),
    ensures
        match r {
            Some(v) => dec_entry(s@, pos as int) == Some((v.0@, v.1 as int)) && pos <= v.1
                <= s@.len(),
            None => dec_entry(s@, pos as int) is None,
        },
{
    let i1 = match read_tag(s, pos, "title=") {
        None => {
            return None;
        },
        Some(i) => i,
    };
    let (title, i2) = match read_str(s, i1) {
        None => {
            return None;
        },
        Some(v) => v,
    };
    let i3 = match read_tag(s, i2, "url=") {
        None => {
            return None;
        },
        Some(i) => i,
    };
    let (url, i4) = match read_str(s, i3) {
        None => {
            return None;
        },
        Some(v) => v,
    };
    let i5 = match read_tag(s, i4, "description=") {
        None => {
            return None;
        },
        Some(i) => i,
    };
    let (description, i6) = match read_str(s, i5) {
        None => {
            return None;
        },
        Some(v) => v,
    };
    let i7 = match read_tag(s, i6, "tags=") {
        None => {
            return None;
        },
        Some(i) => i,
    };
    let (tags, i8) = match read_tags(s, i7) {
        None => {
            return None;
        },
        Some(v) => v,
    };
    let e = crate::models::RepositoryEntry { title, url, description, tags };
    proof {
        assert(dec_entry(s@, pos as int)->Some_0.0 =~~= e@);
    }
    Some((e, i8))
}

/// Append the encodings of the entries from `k` on.
fn write_entries_from(out: &mut Vec<char>, es: &Vec<crate::models::RepositoryEntry>, k: usize)
    requires
        k <= es@.len(),
    ensures
        final(out)@ == old(out)@ + enc_entries_from(crate::models::entry_views(es@), k as int),
    decreases es@.len() - k,
{
    if k < es.len() {
        write_entry(out, &es[k]);
        write_entries_from(out, es, k + 1);
        proof {
            assert(out@ =~= old(out)@ + enc_entries_from(
                crate::models::entry_views(es@),
                k as int,
            ));
        }
    } else {
        proof {
            assert(out@ =~= old(out)@ + enc_entries_from(
                crate::models::entry_views(es@),
                k as int,
            ));
        }
    }
}

/// Append an encoded entry list to `out`.
fn write_entries(out: &mut Vec<char>, es: &Vec<crate::models::RepositoryEntry>)
    ensures
        final(out)@ == old(out)@ + enc_entries(crate::models::entry_views(es@)),
{
    write_num(out, es.len());
    write_entries_from(out, es, 0);
    proof {
        assert(out@ =~= old(out)@ + enc_entries(crate::models::entry_views(es@)));
    }
}

/// Read `n` encoded entries at `pos`.
fn read_entries_n(s: &Vec<char>, pos: usize, n: usize) -> (r: Option<
    (Vec<crate::models::RepositoryEntry>, usize),
>)
    requires
        pos <= s@.len(),
    ensures
        match r {
            Some(v) => dec_entries_n(s@, pos as int, n as int) == Some(
                (crate::models::entry_views(v.0@), v.1 as int),
            ) && pos <= v.1 <= s@.len(),
            None => dec_entries_n(s@, pos as int, n as int) is None,
        },
    decreases n,
{
    if n == 0 {
        let empty: Vec<crate::models::RepositoryEntry> = Vec::new();
        proof {
            assert(crate::models::entry_views(empty@) =~= Seq::<EntryModel>::empty());
        }
        return Some((empty, pos));
    }
    match read_entry(s, pos) {
        None => None,
        Some((v, j)) => match read_entries_n(s, j, n - 1) {
            None => None,
            Some((mut vs, j2)) => {
                let ghost before = vs@;
                let ghost v_view = v@;
                vs.insert(0, v);
                proof {
                    assert(crate::models::entry_views(vs@) =~~= seq![v_view]
                        + crate::models::entry_views(before));
                }
                Some((vs, j2))
            },
        },
    }
}

/// Append one encoded section to `out`.
fn write_section(out: &mut Vec<char>, sec: &crate::models::Section)
    ensures
        final(out)@ == old(out)@ + enc_section(sec@),
{
    write_tag(out, "title=");
    write_str(out, sec.title.as_str());
    write_tag(out, "entries=");
    write_entries(out, &sec.entries);
    write_tag(out, "raw_content=");
    write_str(out, sec.raw_content.as_str());
    proof {
        assert(out@ =~= old(out)@ + enc_section(sec@));
    }
}

/// Read one encoded section at `pos`; its count is the number of entries.
fn read_section(s: &Vec<char>, pos: usize) -> (r: Option<(crate::models::Section, usize)>)
    requires
        pos <= s@.len(),
    ensures
        match r {
            Some(v) => dec_section(s@, pos as int) == Some((v.0@, v.1 as int)) && v.0.wf() && pos
                <= v.1 <= s@.len(),
            None => dec_section(s@, pos as int) is None,
        },
{
    let i1 = match read_tag(s, pos, "title=") {
        None => {
            return None;
        },
        Some(i) => i,
    };
    let (title, i2) = match read_str(s, i1) {
        None => {
            return None;
        },
        Some(v) => v,
    };
    let i3 = match read_tag(s, i2, "entries=") {
        None => {
            return None;
        },
        Some(i) => i,
    };
    let (entries, i4) = match read_num(s, i3) {
        None => {
            return None;
        },
        Some((n, j)) => match read_entries_n(s, j, n) {
            None => {
                return None;
            },
            Some(v) => v,
        },
    };
    let i5 = match read_tag(s, i4, "raw_content=") {
        None => {
            return None;
        },
        Some(i) => i,
    };
    let (raw_content, i6) = match read_str(s, i5) {
        None => {
            return None;
        },
        Some(v) => v,
    };
    let entry_count = entries.len();
    let sec = crate::models::Section { title, entries, raw_content, entry_count };
    proof {
        assert(dec_section(s@, pos as int)->Some_0.0 =~~= sec@);
    }
    Some((sec, i6))
}

/// Append the encodings of the sections from `k` on.
fn write_sections_from(out: &mut Vec<char>, ss: &Vec<crate::models::Section>, k: usize)
    requires
        k <= ss@.len(),
    ensures
        final(out)@ == old(out)@ + enc_sections_from(crate::models::section_views(ss@), k as int),
    decreases ss@.len() - k,
{
    if k < ss.len() {
        write_section(out, &ss[k]);
        write_sections_from(out, ss, k + 1);
        proof {
            assert(out@ =~= old(out)@ + enc_sections_from(
                crate::models::section_views(ss@),
                k as int,
            ));
        }
    } else {
        proof {
            assert(out@ =~= old(out)@ + enc_sections_from(
                crate::models::section_views(ss@),
                k as int,
            ));
        }
    }
}

/// Read `n` encoded sections at `pos`.
fn read_sections_n(s: &Vec<char>, pos: usize, n: usize) -> (r: Option<
    (Vec<crate::models::Section>, usize),
>)
    requires
        pos <= s@.len(),
    ensures
        match r {
            Some(v) => dec_sections_n(s@, pos as int, n as int) == Some(
                (crate::models::section_views(v.0@), v.1 as int),
            ) && pos <= v.1 <= s@.len() && (forall|q: int|
                0 <= q < v.0@.len() ==> (#[trigger] v.0@[q]).wf()),
            None => dec_sections_n(s@, pos as int, n as int) is None,
        },
    decreases n,
{
    if n == 0 {
        let empty: Vec<crate::models::Section> = Vec::new();
        proof {
            assert(crate::models::section_views(empty@) =~= Seq::<SectionModel>::empty());
        }
        return Some((empty, pos));
    }
    match read_section(s, pos) {
        None => None,
        Some((v, j)) => match read_sections_n(s, j, n - 1) {
            None => None,
            Some((mut vs, j2)) => {
                let ghost before = vs@;
                let ghost v_view = v@;
                vs.insert(0, v);
                proof {
                    assert(crate::models::section_views(vs@) =~~= seq![v_view]
                        + crate::models::section_views(before));
                }
                Some((vs, j2))
            },
        },
    }
}

/// Append one encoded location to `out`.
#[verifier::rlimit(100)]
#[verifier::spinoff_prover]
fn write_location(out: &mut Vec<char>, l: &crate::search::SearchLocation)
    ensures
        final(out)@ == old(out)@ + enc_location(l@),
{
    write_tag(out, "section_index=");
    write_num(out, l.section_index);
    write_tag(out, "entry_index=");
    write_opt_num(out, &l.entry_index);
    write_tag(out, "line_content=");
    write_str(out, l.line_content.as_str());
    write_tag(out, "start_pos=");
    write_num(out, l.start_pos);
    write_tag(out, "end_pos=");
    write_num(out, l.end_pos);
    write_tag(out, "search_priority=");
    write_priority(out, &l.search_priority);
    write_tag(out, "github_url=");
    write_opt_str(out, &l.github_url);
    proof {
        assert(out@ =~= old(out)@ + enc_location(l@));
    }
}

/// Read one encoded location at `pos`.
fn read_location(s: &Vec<char>, pos: usize) -> (r: Option<
    (crate::search::SearchLocation, usize),
>)
    requires
        pos <= s@.len(),
    ensures
        match r {
            Some(v) => dec_location(s@, pos as int) == Some((v.0@, v.1 as int)) && pos <= v.1
                <= s@.len(),
            None => dec_location(s@, pos as int) is None,
        },
{
    let i1 = match read_tag(s, pos, "section_index=") {
        None => {
            return None;
        },
        Some(i) => i,
    };
    let (section_index, i2) = match read_num(s, i1) {
        None => {
            return None;
        },
        Some(v) => v,
    };
    let i3 = match read_tag(s, i2, "entry_index=") {
        None => {
            return None;
        },
        Some(i) => i,
    };
    let (entry_index, i4) = match read_opt_num(s, i3) {
        None => {
            return None;
        },
        Some(v) => v,
    };
    let i5 = match read_tag(s, i4, "line_content=") {
        None => {
            return None;
        },
        Some(i) => i,
    };
    let (line_content, i6) = match read_str(s, i5) {
        None => {
            return None;
        },
        Some(v) => v,
    };
    let i7 = match read_tag(s, i6, "start_pos=") {
        None => {
            return None;
        },
        Some(i) => i,
    };
    let (start_pos, i8) = match read_num(s, i7) {
        None => {
            return None;
        },
        Some(v) => v,
    };
    let i9 = match read_tag(s, i8, "end_pos=") {
        None => {
            return None;
        },
        Some(i) => i,
    };
    let (end_pos, i10) = match read_num(s, i9) {
        None => {
            return None;
        },
        Some(v) => v,
    };
    let i11 = match read_tag(s, i10, "search_priority=") {
        None => {
            return None;
        },
        Some(i) => i,
    };
    let (search_priority, i12) = match read_priority(s, i11) {
        None => {
            return None;
        },
        Some(v) => v,
    };
    let i13 = match read_tag(s, i12, "github_url=") {
        None => {
            return None;
        },
        Some(i) => i,
    };
    let (github_url, i14) = match read_opt_str(s, i13) {
        None => {
            return None;
        },
        Some(v) => v,
    };
    let l = crate::search::SearchLocation {
        section_index,
        entry_index,
        line_content,
        start_pos,
        end_pos,
        search_priority,
        github_url,
    };
    proof {
        assert(dec_location(s@, pos as int)->Some_0.0 =~~= l@);
    }
    Some((l, i14))
}

/// Append the encodings of the locations from `k` on.
fn write_locs_from(out: &mut Vec<char>, ls: &Vec<crate::search::SearchLocation>, k: usize)
    requires
        k <= ls@.len(),
    ensures
        final(out)@ == old(out)@ + enc_locs_from(crate::search::loc_views(ls@), k as int),
    decreases ls@.len() - k,
{
    if k < ls.len() {
        write_location(out, &ls[k]);
        write_locs_from(out, ls, k + 1);
        proof {
            assert(out@ =~= old(out)@ + enc_locs_from(crate::search::loc_views(ls@), k as int));
        }
    } else {
        proof {
            assert(out@ =~= old(out)@ + enc_locs_from(crate::search::loc_views(ls@), k as int));
        }
    }
}

/// Read `n` encoded locations at `pos`.
fn read_locs_n(s: &Vec<char>, pos: usize, n: usize) -> (r: Option<
    (Vec<crate::search::SearchLocation>, usize),
>)
    requires
        pos <= s@.len(),
    ensures
        match r {
            Some(v) => dec_locs_n(s@, pos as int, n as int) == Some(
                (crate::search::loc_views(v.0@), v.1 as int),
            ) && pos <= v.1 <= s@.len(),
            None => dec_locs_n(s@, pos as int, n as int) is None,
        },
    decreases n,
{
    if n == 0 {
        let empty: Vec<crate::search::SearchLocation> = Vec::new();
        proof {
            assert(crate::search::loc_views(empty@) =~= Seq::<LocationModel>::empty());
        }
        return Some((empty, pos));
    }
    match read_location(s, pos) {
        None => None,
        Some((v, j)) => match read_locs_n(s, j, n - 1) {
            None => None,
            Some((mut vs, j2)) => {
                let ghost before = vs@;
                let ghost v_view = v@;
                vs.insert(0, v);
                proof {
                    assert(crate::search::loc_views(vs@) =~~= seq![v_view]
                        + crate::search::loc_views(before));
                }
                Some((vs, j2))
            },
        },
    }
}

/// Append one encoded bucket to `out`.
fn write_bucket(out: &mut Vec<char>, b: &crate::search::TermEntry)
    ensures
        final(out)@ == old(out)@ + enc_bucket(b@),
{
    write_tag(out, "term=");
    write_str(out, b.term.as_str());
    write_tag(out, "locations=");
    write_num(out, b.locations.len());
    write_locs_from(out, &b.locations, 0);
    proof {
        assert(out@ =~= old(out)@ + enc_bucket(b@));
    }
}

/// Read one encoded bucket at `pos`.
fn read_bucket(s: &Vec<char>, pos: usize) -> (r: Option<(crate::search::TermEntry, usize)>)
    requires
        pos <= s@.len(),
    ensures
        match r {
            Some(v) => dec_bucket(s@, pos as int) == Some((v.0@, v.1 as int)) && pos <= v.1
                <= s@.len(),
            None => dec_bucket(s@, pos as int) is None,
        },
{
    let i1 = match read_tag(s, pos, "term=") {
        None => {
            return None;
        },
        Some(i) => i,
    };
    let (term, i2) = match read_str(s, i1) {
        None => {
            return None;
        },
        Some(v) => v,
    };
    let i3 = match read_tag(s, i2, "locations=") {
        None => {
            return None;
        },
        Some(i) => i,
    };
    let (locations, i4) = match read_num(s, i3) {
        None => {
            return None;
        },
        Some((n, j)) => match read_locs_n(s, j, n) {
            None => {
                return None;
            },
            Some(v) => v,
        },
    };
    let b = crate::search::TermEntry { term, locations };
    proof {
        assert(dec_bucket(s@, pos as int)->Some_0.0 =~~= b@);
    }
    Some((b, i4))
}

/// Append the encodings of the buckets from `k` on.
fn write_buckets_from(out: &mut Vec<char>, bs: &Vec<crate::search::TermEntry>, k: usize)
    requires
        k <= bs@.len(),
    ensures
        final(out)@ == old(out)@ + enc_buckets_from(crate::search::bucket_views(bs@), k as int),
    decreases bs@.len() - k,
{
    if k < bs.len() {
        write_bucket(out, &bs[k]);
        write_buckets_from(out, bs, k + 1);
        proof {
            assert(out@ =~= old(out)@ + enc_buckets_from(
                crate::search::bucket_views(bs@),
                k as int,
            ));
        }
    } else {
        proof {
            assert(out@ =~= old(out)@ + enc_buckets_from(
                crate::search::bucket_views(bs@),
                k as int,
            ));
        }
    }
}

/// Read `n` encoded buckets at `pos`.
fn read_buckets_n(s: &Vec<char>, pos: usize, n: usize) -> (r: Option<
    (Vec<crate::search::TermEntry>, usize),
>)
    requires
        pos <= s@.len(),
    ensures
        match r {
            Some(v) => dec_buckets_n(s@, pos as int, n as int) == Some(
                (crate::search::bucket_views(v.0@), v.1 as int),
            ) && pos <= v.1 <= s@.len(),
            None => dec_buckets_n(s@, pos as int, n as int) is None,
        },
    decreases n,
{
    if n == 0 {
        let empty: Vec<crate::search::TermEntry> = Vec::new();
        proof {
            assert(crate::search::bucket_views(empty@) =~= Seq::<BucketModel>::empty());
        }
        return Some((empty, pos));
    }
    match read_bucket(s, pos) {
        None => None,
        Some((v, j)) => match read_buckets_n(s, j, n - 1) {
            None => None,
            Some((mut vs, j2)) => {
                let ghost before = vs@;
                let ghost v_view = v@;
                vs.insert(0, v);
                proof {
                    assert(crate::search::bucket_views(vs@) =~~= seq![v_view]
                        + crate::search::bucket_views(before));
                }
                Some((vs, j2))
            },
        },
    }
}

/// Append the encoded index to `out`.
fn write_index(out: &mut Vec<char>, ix: &crate::search::SearchIndex)
    ensures
        final(out)@ == old(out)@ + enc_index(ix@),
{
    write_tag(out, "terms=");
    write_num(out, ix.terms.len());
    write_buckets_from(out, &ix.terms, 0);
    write_tag(out, "total_terms=");
    write_num(out, ix.total_terms);
    proof {
        assert(out@ =~= old(out)@ + enc_index(ix@));
    }
}

/// Read the encoded index at `pos`.
fn read_index(s: &Vec<char>, pos: usize) -> (r: Option<(crate::search::SearchIndex, usize)>)
    requires
        pos <= s@.len(),
    ensures
        match r {
            Some(v) => dec_index(s@, pos as int) == Some((v.0@, v.1 as int)) && pos <= v.1
                <= s@.len(),
            None => dec_index(s@, pos as int) is None,
        },
{
    let i1 = match read_tag(s, pos, "terms=") {
        None => {
            return None;
        },
        Some(i) => i,
    };
    let (terms, i2) = match read_num(s, i1) {
        None => {
            return None;
        },
        Some((n, j)) => match read_buckets_n(s, j, n) {
            None => {
                return None;
            },
            Some(v) => v,
        },
    };
    let i3 = match read_tag(s, i2, "total_terms=") {
        None => {
            return None;
        },
        Some(i) => i,
    };
    let (total_terms, i4) = match read_num(s, i3) {
        None => {
            return None;
        },
        Some(v) => v,
    };
    let ix = crate::search::SearchIndex { terms, total_terms };
    proof {
        assert(dec_index(s@, pos as int)->Some_0.0 =~~= ix@);
    }
    Some((ix, i4))
}

/// Append the encoded metadata to `out`.
fn write_metadata(out: &mut Vec<char>, m: &crate::models::ReadmeMetadata)
    ensures
        final(out)@ == old(out)@ + enc_metadata(m@),
{
    write_tag(out, "title=");
    write_str(out, m.title.as_str());
    write_tag(out, "description=");
    write_str(out, m.description.as_str());
    write_tag(out, "last_updated=");
    write_opt_str(out, &m.last_updated);
    write_tag(out, "total_entries=");
    write_num(out, m.total_entries);
    proof {
        assert(out@ =~= old(out)@ + enc_metadata(m@));
    }
}

/// Read the encoded metadata at `pos`.
fn read_metadata(s: &Vec<char>, pos: usize) -> (r: Option<
    (crate::models::ReadmeMetadata, usize),
>)
    requires
        pos <= s@.len(),
    ensures
        match r {
            Some(v) => dec_metadata(s@, pos as int) == Some((v.0@, v.1 as int)) && pos <= v.1
                <= s@.len(),
            None => dec_metadata(s@, pos as int) is None,
        },
{
    let i1 = match read_tag(s, pos, "title=") {
        None => {
            return None;
        },
        Some(i) => i,
    };
    let (title, i2) = match read_str(s, i1) {
        None => {
            return None;
        },
        Some(v) => v,
    };
    let i3 = match read_tag(s, i2, "description=") {
        None => {
            return None;
        },
        Some(i) => i,
    };
    let (description, i4) = match read_str(s, i3) {
        None => {
            return None;
        },
        Some(v) => v,
    };
    let i5 = match read_tag(s, i4, "last_updated=") {
        None => {
            return None;
        },
        Some(i) => i,
    };
    let (last_updated, i6) = match read_opt_str(s, i5) {
        None => {
            return None;
        },
        Some(v) => v,
    };
    let i7 = match read_tag(s, i6, "total_entries=") {
        None => {
            return None;
        },
        Some(i) => i,
    };
    let (total_entries, i8) = match read_num(s, i7) {
        None => {
            return None;
        },
        Some(v) => v,
    };
    let m = crate::models::ReadmeMetadata { title, description, last_updated, total_entries };
    proof {
        assert(dec_metadata(s@, pos as int)->Some_0.0 =~~= m@);
    }
    Some((m, i8))
}

/// Serialize a catalog to its canonical text encoding.
#[verifier::rlimit(80)]
pub fn encode_catalog(content: &crate::models::ReadmeContent) -> (r: String)
    ensures
        r@ == enc_catalog(content@),
{
    let mut out: Vec<char> = Vec::new();
    write_tag(&mut out, "sections=");
    write_num(&mut out, content.sections.len());
    write_sections_from(&mut out, &content.sections, 0);
    write_tag(&mut out, "search_index=");
    write_index(&mut out, &content.search_index);
    write_tag(&mut out, "metadata=");
    write_metadata(&mut out, &content.metadata);
    proof {
        assert(out@ =~= enc_catalog(content@));
    }
    string_of(&out)
}

/// Deserialize a catalog from its canonical text encoding; the whole text
/// must be consumed. Every decoded section carries a count equal to its
/// number of entries.
pub fn decode_catalog(text: &str) -> (r: Option<crate::models::ReadmeContent>)
    ensures
        match r {
            Some(c) => dec_catalog(text@, 0) == Some((c@, text@.len() as int)) && (forall|q: int|
                0 <= q < c.sections@.len() ==> (#[trigger] c.sections@[q]).wf()),
            None => dec_catalog(text@, 0) is None || (dec_catalog(text@, 0) matches Some(pr)
                && pr.1 != text@.len()),
        },
{
    let s = chars_of(text);
    let i1 = match read_tag(&s, 0, "sections=") {
        None => {
            return None;
        },
        Some(i) => i,
    };
    let (sections, i2) = match read_num(&s, i1) {
        None => {
            return None;
        },
        Some((n, j)) => match read_sections_n(&s, j, n) {
            None => {
                return None;
            },
            Some(v) => v,
        },
    };
    let i3 = match read_tag(&s, i2, "search_index=") {
        None => {
            return None;
        },
        Some(i) => i,
    };
    let (search_index, i4) = match read_index(&s, i3) {
        None => {
            return None;
        },
        Some(v) => v,
    };
    let i5 = match read_tag(&s, i4, "metadata=") {
        None => {
            return None;
        },
        Some(i) => i,
    };
    let (metadata, i6) = match read_metadata(&s, i5) {
        None => {
            return None;
        },
        Some(v) => v,
    };
    if i6 != s.len() {
        return None;
    }
    let c = crate::models::ReadmeContent { sections, search_index, metadata };
    proof {
        assert(dec_catalog(text@, 0)->Some_0.0 =~~= c@);
    }
    Some(c)
}

} // verus!
