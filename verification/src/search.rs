//! The inverted search index and its query engine: lowercase terms mapped
//! to weighted source locations, and ranked, de-duplicated query results.
//!
//! Relevance scores are held in hundredths, so that an exact match on a
//! repository name scores 200 (two point zero) and a bare contains-match
//! on a description scores 60 (six tenths).

use vstd::prelude::*;

use crate::text::{
    chars_of, ends_with_s, has_sub, has_substring, lower_of, lowercase, seq_eq, starts_with_chars,
    starts_with_s, ends_with_chars,
};

verus! {

/// Relative importance of a token's origin, used as a scoring multiplier.
#[derive(Debug, Clone, Copy, PartialEq, Eq, Structural)]
pub enum SearchPriority {
    RepositoryName,
    Description,
    RawContent,
}

impl SearchPriority {
    /// Weight in tenths: repository names count double, descriptions one
    /// and a half, raw content a tenth (and is excluded from results anyway).
    pub open spec fn spec_multiplier(&self) -> u32 {
        match self {
            SearchPriority::RepositoryName => 20,
            SearchPriority::Description => 15,
            SearchPriority::RawContent => 1,
        }
    }

    /// Scoring weight of this priority, in tenths.
    pub fn score_multiplier(&self) -> (m: u32)
        ensures
            m == self.spec_multiplier(),
    {
        match self {
            SearchPriority::RepositoryName => 20,
            SearchPriority::Description => 15,
            SearchPriority::RawContent => 1,
        }
    }
}

/// Mathematical view of a `SearchLocation`.
#[verifier::ext_equal]
pub ghost struct LocationModel {
    pub section: int,
    pub entry: Option<int>,
    pub line: Seq<char>,
    pub start: int,
    pub end: int,
    pub priority: SearchPriority,
    pub url: Option<Seq<char>>,
}

/// Mathematical view of one term's bucket in the index.
#[verifier::ext_equal]
pub ghost struct BucketModel {
    pub term: Seq<char>,
    pub locs: Seq<LocationModel>,
}

/// Mathematical view of a `SearchIndex`.
#[verifier::ext_equal]
pub ghost struct IndexModel {
    pub buckets: Seq<BucketModel>,
    pub total: int,
}

/// Mathematical view of a `SearchResult`.
#[verifier::ext_equal]
pub ghost struct ResultModel {
    pub section: int,
    pub entry: Option<int>,
    pub line: Seq<char>,
    pub score: int,
    pub url: Option<Seq<char>>,
}

pub open spec fn opt_int(o: Option<usize>) -> Option<int> {
    match o {
        Some(k) => Some(k as int),
        None => None,
    }
}

pub open spec fn opt_chars(o: Option<String>) -> Option<Seq<char>> {
    match o {
        Some(s) => Some(s@),
        None => None,
    }
}

/// One place a term was seen: which section and entry, the full source
/// text it came from, and the origin's priority.
#[derive(Debug, Clone, PartialEq)]
pub struct SearchLocation {
    pub section_index: usize,
    pub entry_index: Option<usize>,
    pub line_content: String,
    pub start_pos: usize,
    pub end_pos: usize,
    pub search_priority: SearchPriority,
    pub github_url: Option<String>,
}

impl View for SearchLocation {
    type V = LocationModel;

    open spec fn view(&self) -> LocationModel {
        LocationModel {
            section: self.section_index as int,
            entry: opt_int(self.entry_index),
            line: self.line_content@,
            start: self.start_pos as int,
            end: self.end_pos as int,
            priority: self.search_priority,
            url: opt_chars(self.github_url),
        }
    }
}

/// One lowercase term of the index together with every location it was
/// registered at, in registration order.
#[derive(Debug, Clone, PartialEq)]
pub struct TermEntry {
    pub term: String,
    pub locations: Vec<SearchLocation>,
}

/// The views of a sequence of locations.
pub open spec fn loc_views(ls: Seq<SearchLocation>) -> Seq<LocationModel> {
    ls.map_values(|l: SearchLocation| l@)
}

impl View for TermEntry {
    type V = BucketModel;

    open spec fn view(&self) -> BucketModel {
        BucketModel { term: self.term@, locs: loc_views(self.locations@) }
    }
}

pub open spec fn bucket_views(ts: Seq<TermEntry>) -> Seq<BucketModel> {
    ts.map_values(|t: TermEntry| t@)
}

/// Inverted index: lowercase word to the ordered list of weighted
/// locations it occurs at, in first-seen order of the words.
#[derive(Debug, Clone, PartialEq)]
pub struct SearchIndex {
    pub terms: Vec<TermEntry>,
    pub total_terms: usize,
}

impl View for SearchIndex {
    type V = IndexModel;

    open spec fn view(&self) -> IndexModel {
        IndexModel { buckets: bucket_views(self.terms@), total: self.total_terms as int }
    }
}

/// No two buckets of the index share a term.
pub open spec fn index_wf(ix: IndexModel) -> bool {
    forall|i: int, j: int|
        0 <= i < j < ix.buckets.len() ==> ix.buckets[i].term != ix.buckets[j].term
}

impl Default for SearchIndex {
    /// An empty index.
    fn default() -> (r: Self)
        ensures
            r@.buckets.len() == 0,
            r@.total == 0,
            index_wf(r@),
    {
        SearchIndex { terms: Vec::new(), total_terms: 0 }
    }
}

/// One ranked query hit: at most one per distinct (section, entry) pair.
#[derive(Debug, Clone, PartialEq)]
pub struct SearchResult {
    pub section_index: usize,
    pub entry_index: Option<usize>,
    pub line_content: String,
    pub relevance_score: u32,
    pub github_url: Option<String>,
}

impl View for SearchResult {
    type V = ResultModel;

    open spec fn view(&self) -> ResultModel {
        ResultModel {
            section: self.section_index as int,
            entry: opt_int(self.entry_index),
            line: self.line_content@,
            score: self.relevance_score as int,
            url: opt_chars(self.github_url),
        }
    }
}

pub open spec fn result_views(rs: Seq<SearchResult>) -> Seq<ResultModel> {
    rs.map_values(|r: SearchResult| r@)
}

/// Match quality of `term` against `q`, in tenths: an exact match scores
/// one, a prefix match eight tenths, a suffix match six tenths, any other
/// (containing) match four tenths.
pub open spec fn rel_points(term: Seq<char>, q: Seq<char>) -> u32 {
    if term == q {
        10
    } else if starts_with_s(term, q) {
        8
    } else if ends_with_s(term, q) {
        6
    } else {
        4
    }
}

/// Match quality of `term` against `query`, in tenths.
pub fn calculate_relevance_score(term: &str, query: &str) -> (r: u32)
    ensures
        r == rel_points(term@, query@),
{
    let t = chars_of(term);
    let q = chars_of(query);
    if seq_eq(&t, &q) {
        10
    } else if starts_with_chars(&t, &q) {
        8
    } else if ends_with_chars(&t, &q) {
        6
    } else {
        4
    }
}

/// Position of the bucket whose term is `key`, searching from `i` on.
pub open spec fn bucket_pos_from(bs: Seq<BucketModel>, key: Seq<char>, i: int) -> Option<int>
    recommends
        0 <= i <= bs.len(),
    decreases bs.len() - i,
    when 0 <= i <= bs.len()
{
    if i >= bs.len() {
        None
    } else if bs[i].term == key {
        Some(i)
    } else {
        bucket_pos_from(bs, key, i + 1)
    }
}

/// Position of the bucket whose term is `key`, if any.
pub open spec fn bucket_pos(bs: Seq<BucketModel>, key: Seq<char>) -> Option<int> {
    bucket_pos_from(bs, key, 0)
}

proof fn lemma_bucket_pos_skip(bs: Seq<BucketModel>, key: Seq<char>, i: int)
    requires
        0 <= i <= bs.len(),
        forall|k: int| 0 <= k < i ==> bs[k].term != key,
    ensures
        bucket_pos(bs, key) == bucket_pos_from(bs, key, i),
    decreases i,
{
    if i > 0 {
        lemma_bucket_pos_skip(bs, key, i - 1);
    }
}

/// Where `bucket_pos_from` answers, that bucket carries `key`; where it
/// does not, no bucket from `i` on does.
pub proof fn lemma_bucket_pos_props(bs: Seq<BucketModel>, key: Seq<char>, i: int)
    requires
        0 <= i <= bs.len(),
    ensures
        match bucket_pos_from(bs, key, i) {
            Some(j) => i <= j < bs.len() && bs[j].term == key,
            None => forall|k: int| i <= k < bs.len() ==> bs[k].term != key,
        },
    decreases bs.len() - i,
{
    if i < bs.len() && bs[i].term != key {
        lemma_bucket_pos_props(bs, key, i + 1);
    }
}

/// Registering a term keeps the index well-formed: bucket terms stay
/// pairwise distinct.
pub proof fn lemma_add_term_wf(ix: IndexModel, key: Seq<char>, loc: LocationModel)
    requires
        index_wf(ix),
    ensures
        index_wf(add_term_model(ix, key, loc)),
{
    lemma_bucket_pos_props(ix.buckets, key, 0);
    let nb = add_term_model(ix, key, loc).buckets;
    match bucket_pos(ix.buckets, key) {
        Some(j) => {
            assert forall|a: int, b: int| 0 <= a < b < nb.len() implies nb[a].term
                != nb[b].term by {
                assert(nb[a].term == ix.buckets[a].term && nb[b].term == ix.buckets[b].term);
            }
        },
        None => {
            assert forall|a: int, b: int| 0 <= a < b < nb.len() implies nb[a].term
                != nb[b].term by {
                if b == ix.buckets.len() {
                    assert(nb[a].term == ix.buckets[a].term && nb[b].term == key);
                }
            }
        },
    }
}

/// What registering a location under `key` does to the index: the location
/// is appended to `key`'s bucket, or a fresh bucket is added at the end,
/// and the term counter grows by one (saturating at the machine limit).
pub open spec fn add_term_model(ix: IndexModel, key: Seq<char>, loc: LocationModel) -> IndexModel {
    let nt = if ix.total < usize::MAX as int {
        ix.total + 1
    } else {
        ix.total
    };
    match bucket_pos(ix.buckets, key) {
        Some(j) => IndexModel {
            buckets: ix.buckets.update(
                j,
                BucketModel { term: key, locs: ix.buckets[j].locs.push(loc) },
            ),
            total: nt,
        },
        None => IndexModel {
            buckets: ix.buckets.push(BucketModel { term: key, locs: seq![loc] }),
            total: nt,
        },
    }
}

impl SearchIndex {
    /// Register `location` under the lowercase form of `term`.
    pub fn add_term(&mut self, term: String, location: SearchLocation)
        ensures
            final(self)@ == add_term_model(old(self)@, lower_of(term@), location@),
    {
        let key = lowercase(term.as_str());
        let ghost key_view = key@;
        let n = self.terms.len();
        let mut i: usize = 0;
        while i < n
            invariant
                n == self.terms@.len(),
                i <= n,
                *self == *old(self),
                key@ == key_view,
                key_view == lower_of(term@),
                forall|k: int| 0 <= k < i ==> bucket_views(self.terms@)[k].term != key_view,
            decreases n - i,
        {
            if self.terms[i].term == key {
                proof {
                    lemma_bucket_pos_skip(bucket_views(self.terms@), key_view, i as int);
                }
                let mut entry = self.terms.remove(i);
                entry.locations.push(location);
                self.terms.insert(i, entry);
                if self.total_terms < usize::MAX {
                    self.total_terms = self.total_terms + 1;
                }
                proof {
                    let obs = bucket_views(old(self).terms@);
                    let nb = BucketModel {
                        term: key_view,
                        locs: obs[i as int].locs.push(location@),
                    };
                    assert(bucket_views(self.terms@) =~~= obs.update(i as int, nb));
                    assert(self@ =~~= add_term_model(old(self)@, key_view, location@));
                }
                return ;
            }
            i = i + 1;
        }
        proof {
            lemma_bucket_pos_skip(bucket_views(self.terms@), key_view, n as int);
        }
        let mut locs: Vec<SearchLocation> = Vec::new();
        locs.push(location);
        self.terms.push(TermEntry { term: key, locations: locs });
        if self.total_terms < usize::MAX {
            self.total_terms = self.total_terms + 1;
        }
        proof {
            let obs = bucket_views(old(self).terms@);
            let nb = BucketModel { term: key_view, locs: seq![location@] };
            assert(bucket_views(self.terms@) =~~= obs.push(nb));
            assert(self@ =~~= add_term_model(old(self)@, key_view, location@));
        }
    }
}

/// Aggregation key of a location: which section and entry it points at.
pub open spec fn loc_key(l: LocationModel) -> (int, Option<int>) {
    (l.section, l.entry)
}

/// Aggregation key of a result.
pub open spec fn res_key(r: ResultModel) -> (int, Option<int>) {
    (r.section, r.entry)
}

/// Score of a match of quality `rel_points(term, q)` found at a location
/// of priority `p`, in hundredths.
pub open spec fn match_points(term: Seq<char>, q: Seq<char>, p: SearchPriority) -> int {
    rel_points(term, q) * p.spec_multiplier()
}

/// Position of the first aggregated result with key `key` at or after `i`.
pub open spec fn find_res_from(acc: Seq<ResultModel>, key: (int, Option<int>), i: int) -> Option<
    int,
>
    recommends
        0 <= i <= acc.len(),
    decreases acc.len() - i,
    when 0 <= i <= acc.len()
{
    if i >= acc.len() {
        None
    } else if res_key(acc[i]) == key {
        Some(i)
    } else {
        find_res_from(acc, key, i + 1)
    }
}

/// Position of the first aggregated result with key `key`, if any.
pub open spec fn find_res(acc: Seq<ResultModel>, key: (int, Option<int>)) -> Option<int> {
    find_res_from(acc, key, 0)
}

/// A result freshly created from one matching location.
pub open spec fn fresh_res(l: LocationModel, sc: int) -> ResultModel {
    ResultModel { section: l.section, entry: l.entry, line: l.line, score: sc, url: l.url }
}

/// An existing result merged with a further matching location for the same
/// entry: the score is the maximum seen, and repository-name text replaces
/// the display line.
pub open spec fn merge_res(r: ResultModel, l: LocationModel, sc: int) -> ResultModel {
    ResultModel {
        section: r.section,
        entry: r.entry,
        line: if l.priority == SearchPriority::RepositoryName {
            l.line
        } else {
            r.line
        },
        score: if sc > r.score {
            sc
        } else {
            r.score
        },
        url: r.url,
    }
}

/// What one location of a matching term contributes to the aggregation:
/// raw-content locations are dropped; others create or strengthen the
/// result for their entry.
pub open spec fn apply_loc(
    acc: Seq<ResultModel>,
    term: Seq<char>,
    q: Seq<char>,
    l: LocationModel,
) -> Seq<ResultModel> {
    if l.priority == SearchPriority::RawContent {
        acc
    } else {
        let sc = match_points(term, q, l.priority);
        match find_res(acc, loc_key(l)) {
            Some(j) => acc.update(j, merge_res(acc[j], l, sc)),
            None => acc.push(fresh_res(l, sc)),
        }
    }
}

/// The locations of one bucket folded into the aggregation, from `k` on.
pub open spec fn apply_locs(
    acc: Seq<ResultModel>,
    term: Seq<char>,
    q: Seq<char>,
    locs: Seq<LocationModel>,
    k: int,
) -> Seq<ResultModel>
    recommends
        0 <= k <= locs.len(),
    decreases locs.len() - k,
    when 0 <= k <= locs.len()
{
    if k >= locs.len() {
        acc
    } else {
        apply_locs(apply_loc(acc, term, q, locs[k]), term, q, locs, k + 1)
    }
}

/// The buckets of the index folded into the aggregation, from `i` on;
/// a bucket takes part only when its term contains the query.
pub open spec fn apply_buckets(
    acc: Seq<ResultModel>,
    bs: Seq<BucketModel>,
    q: Seq<char>,
    i: int,
) -> Seq<ResultModel>
    recommends
        0 <= i <= bs.len(),
    decreases bs.len() - i,
    when 0 <= i <= bs.len()
{
    if i >= bs.len() {
        acc
    } else {
        let acc2 = if has_sub(bs[i].term, q) {
            apply_locs(acc, bs[i].term, q, bs[i].locs, 0)
        } else {
            acc
        };
        apply_buckets(acc2, bs, q, i + 1)
    }
}

/// All aggregated results for lowercase query `q`, in first-seen order.
pub open spec fn gathered(ix: IndexModel, q: Seq<char>) -> Seq<ResultModel> {
    apply_buckets(Seq::empty(), ix.buckets, q, 0)
}

/// `a` orders strictly before `b` in an entry-key comparison: a missing
/// entry index comes first, then ascending indices.
pub open spec fn entry_before(a: Option<int>, b: Option<int>) -> bool {
    match (a, b) {
        (Option::None, Option::Some(_)) => true,
        (Option::Some(x), Option::Some(y)) => x < y,
        _ => false,
    }
}

/// `a` orders strictly before `b`: ascending section, then entry.
pub open spec fn key_before(a: (int, Option<int>), b: (int, Option<int>)) -> bool {
    a.0 < b.0 || (a.0 == b.0 && entry_before(a.1, b.1))
}

/// `a` ranks strictly before `b`: higher score first; equal scores break
/// ties by ascending (section, entry) key, making the order deterministic.
pub open spec fn res_before(a: ResultModel, b: ResultModel) -> bool {
    a.score > b.score || (a.score == b.score && key_before(res_key(a), res_key(b)))
}

/// `r` placed into `s` just before the first element it ranks before.
pub open spec fn insert_res(r: ResultModel, s: Seq<ResultModel>) -> Seq<ResultModel>
    decreases s.len(),
{
    if s.len() == 0 {
        seq![r]
    } else if res_before(r, s[0]) {
        seq![r] + s
    } else {
        seq![s[0]] + insert_res(r, s.drop_first())
    }
}

/// Insertion sort of `s` into `acc`, taking elements from `k` on.
pub open spec fn sort_pass(acc: Seq<ResultModel>, s: Seq<ResultModel>, k: int) -> Seq<ResultModel>
    recommends
        0 <= k <= s.len(),
    decreases s.len() - k,
    when 0 <= k <= s.len()
{
    if k >= s.len() {
        acc
    } else {
        sort_pass(insert_res(s[k], acc), s, k + 1)
    }
}

/// The aggregated results in rank order.
pub open spec fn rank_results(s: Seq<ResultModel>) -> Seq<ResultModel> {
    sort_pass(Seq::empty(), s, 0)
}

/// What a query returns: nothing for the empty query; otherwise the
/// aggregation over all buckets whose term contains the lowercased query,
/// in rank order.
pub open spec fn search_model(ix: IndexModel, query: Seq<char>) -> Seq<ResultModel> {
    if query.len() == 0 {
        Seq::empty()
    } else {
        rank_results(gathered(ix, lower_of(query)))
    }
}

/// Whether two optional indices are equal.
fn opt_usize_eq(a: &Option<usize>, b: &Option<usize>) -> (r: bool)
    ensures
        r == (opt_int(*a) == opt_int(*b)),
{
    match (a, b) {
        (Option::None, Option::None) => true,
        (Option::Some(x), Option::Some(y)) => *x == *y,
        _ => false,
    }
}

/// A copy of an optional string.
fn clone_opt_string(o: &Option<String>) -> (r: Option<String>)
    ensures
        opt_chars(r) == opt_chars(*o),
{
    match o {
        Option::None => None,
        Option::Some(s) => Some(s.clone()),
    }
}

/// A copy of a search result, field by field.
fn clone_result(r: &SearchResult) -> (c: SearchResult)
    ensures
        c@ == r@,
{
    SearchResult {
        section_index: r.section_index,
        entry_index: r.entry_index,
        line_content: r.line_content.clone(),
        relevance_score: r.relevance_score,
        github_url: clone_opt_string(&r.github_url),
    }
}

/// Whether `a` ranks strictly before `b`.
fn result_before(a: &SearchResult, b: &SearchResult) -> (r: bool)
    ensures
        r == res_before(a@, b@),
{
    if a.relevance_score > b.relevance_score {
        true
    } else if a.relevance_score == b.relevance_score {
        if a.section_index < b.section_index {
            true
        } else if a.section_index == b.section_index {
            match (&a.entry_index, &b.entry_index) {
                (Option::None, Option::Some(_)) => true,
                (Option::Some(x), Option::Some(y)) => *x < *y,
                _ => false,
            }
        } else {
            false
        }
    } else {
        false
    }
}

proof fn lemma_find_res_skip(acc: Seq<ResultModel>, key: (int, Option<int>), i: int)
    requires
        0 <= i <= acc.len(),
        forall|k: int| 0 <= k < i ==> res_key(acc[k]) != key,
    ensures
        find_res(acc, key) == find_res_from(acc, key, i),
    decreases i,
{
    if i > 0 {
        lemma_find_res_skip(acc, key, i - 1);
    }
}

/// Position of the aggregated result for `(section, entry)` in `acc`.
fn find_result_slot(acc: &Vec<SearchResult>, section: usize, entry: &Option<usize>) -> (r: Option<
    usize,
>)
    ensures
        match r {
            Some(j) => j < acc@.len() && find_res(
                result_views(acc@),
                (section as int, opt_int(*entry)),
            ) == Some(j as int),
            None => find_res(result_views(acc@), (section as int, opt_int(*entry))) is None,
        },
{
    let ghost key = (section as int, opt_int(*entry));
    let n = acc.len();
    let mut j: usize = 0;
    while j < n
        invariant
            n == acc@.len(),
            j <= n,
            key == (section as int, opt_int(*entry)),
            forall|k: int| 0 <= k < j ==> res_key(result_views(acc@)[k]) != key,
        decreases n - j,
    {
        let c = &acc[j];
        if c.section_index == section && opt_usize_eq(&c.entry_index, entry) {
            proof {
                lemma_find_res_skip(result_views(acc@), key, j as int);
            }
            return Some(j);
        }
        j = j + 1;
    }
    proof {
        lemma_find_res_skip(result_views(acc@), key, n as int);
    }
    None
}

proof fn lemma_insert_res_at(r: ResultModel, s: Seq<ResultModel>, j: int)
    requires
        0 <= j <= s.len(),
        forall|p: int| 0 <= p < j ==> !res_before(r, s[p]),
        j == s.len() || res_before(r, s[j]),
    ensures
        insert_res(r, s) == s.take(j) + seq![r] + s.skip(j),
    decreases j,
{
    if s.len() == 0 {
        assert(insert_res(r, s) =~~= s.take(j) + seq![r] + s.skip(j));
    } else if j == 0 {
        assert(insert_res(r, s) =~~= s.take(0) + seq![r] + s.skip(0));
    } else {
        assert(!res_before(r, s[0]));
        lemma_insert_res_at(r, s.drop_first(), j - 1);
        assert(seq![s[0]] + (s.drop_first().take(j - 1) + seq![r] + s.drop_first().skip(j - 1))
            =~~= s.take(j) + seq![r] + s.skip(j));
    }
}

impl SearchIndex {
    /// Ranked, de-duplicated results for `query`: every index term that
    /// contains the lowercased query contributes its non-raw-content
    /// locations; per (section, entry) the best score is kept and
    /// repository-name text is preferred for display; results come in
    /// descending score order, ties broken by ascending (section, entry).
    pub fn search(&self, query: &str) -> (results: Vec<SearchResult>)
        ensures
            result_views(results@) == search_model(self@, query@),
            sorted_res(result_views(results@)),
            keys_distinct(result_views(results@)),
    {
        proof {
            lemma_search_model_ranked(self@, query@);
        }
        let mut out: Vec<SearchResult> = Vec::new();
        if query.unicode_len() == 0 {
            proof {
                assert(result_views(out@) =~~= search_model(self@, query@));
            }
            return out;
        }
        let q_string = lowercase(query);
        let q = chars_of(q_string.as_str());
        let ghost ql = lower_of(query@);

        let mut acc: Vec<SearchResult> = Vec::new();
        proof {
            assert(result_views(acc@) =~~= Seq::<ResultModel>::empty());
        }
        let nb = self.terms.len();
        let mut i: usize = 0;
        while i < nb
            invariant
                nb == self.terms@.len(),
                i <= nb,
                q@ == ql,
                apply_buckets(result_views(acc@), self@.buckets, ql, i as int) == gathered(
                    self@,
                    ql,
                ),
            decreases nb - i,
        {
            let t = &self.terms[i];
            let term_chars = chars_of(t.term.as_str());
            let ghost acc_at_bucket = result_views(acc@);
            if has_substring(&term_chars, &q) {
                let rel: u32 = if seq_eq(&term_chars, &q) {
                    10
                } else if starts_with_chars(&term_chars, &q) {
                    8
                } else if ends_with_chars(&term_chars, &q) {
                    6
                } else {
                    4
                };
                assert(rel == rel_points(t.term@, ql));
                let nl = t.locations.len();
                let mut k: usize = 0;
                while k < nl
                    invariant
                        nl == t.locations@.len(),
                        k <= nl,
                        q@ == ql,
                        rel == rel_points(t@.term, ql),
                        apply_locs(result_views(acc@), t@.term, ql, t@.locs, k as int)
                            == apply_locs(acc_at_bucket, t@.term, ql, t@.locs, 0),
                    decreases nl - k,
                {
                    let loc = &t.locations[k];
                    let ghost acc_before = result_views(acc@);
                    if !(loc.search_priority == SearchPriority::RawContent) {
                        let sc = rel * loc.search_priority.score_multiplier();
                        assert(sc == match_points(t@.term, ql, loc@.priority));
                        match find_result_slot(&acc, loc.section_index, &loc.entry_index) {
                            Some(j) => {
                                let cur = &acc[j];
                                let new_line = if loc.search_priority
                                    == SearchPriority::RepositoryName {
                                    loc.line_content.clone()
                                } else {
                                    cur.line_content.clone()
                                };
                                let new_score = if sc > cur.relevance_score {
                                    sc
                                } else {
                                    cur.relevance_score
                                };
                                let merged = SearchResult {
                                    section_index: cur.section_index,
                                    entry_index: cur.entry_index,
                                    line_content: new_line,
                                    relevance_score: new_score,
                                    github_url: clone_opt_string(&cur.github_url),
                                };
                                acc[j] = merged;
                                proof {
                                    assert(result_views(acc@) =~~= apply_loc(
                                        acc_before,
                                        t@.term,
                                        ql,
                                        t@.locs[k as int],
                                    ));
                                }
                            },
                            None => {
                                let fresh = SearchResult {
                                    section_index: loc.section_index,
                                    entry_index: loc.entry_index,
                                    line_content: loc.line_content.clone(),
                                    relevance_score: sc,
                                    github_url: clone_opt_string(&loc.github_url),
                                };
                                acc.push(fresh);
                                proof {
                                    assert(result_views(acc@) =~~= apply_loc(
                                        acc_before,
                                        t@.term,
                                        ql,
                                        t@.locs[k as int],
                                    ));
                                }
                            },
                        }
                    }
                    k = k + 1;
                }
            }
            i = i + 1;
        }
        let ghost gathered_views = result_views(acc@);
        assert(gathered_views == gathered(self@, ql));

        let n = acc.len();
        let mut k: usize = 0;
        while k < n
            invariant
                n == acc@.len(),
                k <= n,
                sort_pass(result_views(out@), gathered_views, k as int) == rank_results(
                    gathered_views,
                ),
                gathered_views == result_views(acc@),
            decreases n - k,
        {
            let r = clone_result(&acc[k]);
            let ghost out_before = result_views(out@);
            let mut pos: usize = 0;
            while pos < out.len() && !result_before(&r, &out[pos])
                invariant
                    pos <= out@.len(),
                    0 <= k < gathered_views.len(),
                    r@ == gathered_views[k as int],
                    out_before == result_views(out@),
                    forall|p: int| 0 <= p < pos ==> !res_before(r@, result_views(out@)[p]),
                decreases out@.len() - pos,
            {
                pos = pos + 1;
            }
            proof {
                lemma_insert_res_at(r@, out_before, pos as int);
            }
            out.insert(pos, r);
            proof {
                assert(result_views(out@) =~~= out_before.take(pos as int) + seq![
                    gathered_views[k as int],
                ] + out_before.skip(pos as int));
            }
            k = k + 1;
        }
        proof {
            assert(result_views(out@) == search_model(self@, query@));
        }
        out
    }
}

/// Results come in rank order: no later result orders strictly before an
/// earlier one.
pub open spec fn sorted_res(s: Seq<ResultModel>) -> bool {
    forall|i: int, j: int| 0 <= i < j < s.len() ==> !res_before(s[j], s[i])
}

/// No two results share a (section, entry) key.
pub open spec fn keys_distinct(s: Seq<ResultModel>) -> bool {
    forall|i: int, j: int| 0 <= i < j < s.len() ==> res_key(s[i]) != res_key(s[j])
}

/// Some result in `s` carries the key `key`.
pub open spec fn has_key(s: Seq<ResultModel>, key: (int, Option<int>)) -> bool {
    exists|i: int| 0 <= i < s.len() && res_key(#[trigger] s[i]) == key
}

/// Location `j` of bucket `i` backs the result `r`: the bucket's term
/// contains the query, the location is not raw content, it points at `r`'s
/// entry, and it yields exactly `r`'s score.
pub open spec fn wit_at(
    bs: Seq<BucketModel>,
    q: Seq<char>,
    r: ResultModel,
    i: int,
    j: int,
) -> bool {
    &&& 0 <= i < bs.len()
    &&& 0 <= j < bs[i].locs.len()
    &&& has_sub(bs[i].term, q)
    &&& bs[i].locs[j].priority != SearchPriority::RawContent
    &&& loc_key(bs[i].locs[j]) == res_key(r)
    &&& r.score == match_points(bs[i].term, q, bs[i].locs[j].priority)
}

/// Some non-raw-content location of some matching term backs `r`.
pub open spec fn witnessed(bs: Seq<BucketModel>, q: Seq<char>, r: ResultModel) -> bool {
    exists|i: int, j: int| wit_at(bs, q, r, i, j)
}

proof fn lemma_find_res_from_props(acc: Seq<ResultModel>, key: (int, Option<int>), i: int)
    requires
        0 <= i <= acc.len(),
    ensures
        match find_res_from(acc, key, i) {
            Some(j) => i <= j < acc.len() && res_key(acc[j]) == key,
            None => forall|k: int| i <= k < acc.len() ==> res_key(acc[k]) != key,
        },
    decreases acc.len() - i,
{
    if i < acc.len() && res_key(acc[i]) != key {
        lemma_find_res_from_props(acc, key, i + 1);
    }
}

proof fn lemma_apply_loc_props(
    acc: Seq<ResultModel>,
    q: Seq<char>,
    bs: Seq<BucketModel>,
    bi: int,
    lj: int,
)
    requires
        0 <= bi < bs.len(),
        0 <= lj < bs[bi].locs.len(),
        has_sub(bs[bi].term, q),
        keys_distinct(acc),
        forall|m: int| 0 <= m < acc.len() ==> witnessed(bs, q, #[trigger] acc[m]),
    ensures
        keys_distinct(apply_loc(acc, bs[bi].term, q, bs[bi].locs[lj])),
        forall|m: int|
            0 <= m < apply_loc(acc, bs[bi].term, q, bs[bi].locs[lj]).len() ==> witnessed(
                bs,
                q,
                #[trigger] apply_loc(acc, bs[bi].term, q, bs[bi].locs[lj])[m],
            ),
{
    let l = bs[bi].locs[lj];
    let term = bs[bi].term;
    if l.priority != SearchPriority::RawContent {
        let sc = match_points(term, q, l.priority);
        lemma_find_res_from_props(acc, loc_key(l), 0);
        match find_res(acc, loc_key(l)) {
            Some(j) => {
                let merged = merge_res(acc[j], l, sc);
                let acc2 = acc.update(j, merged);
                assert forall|m: int| 0 <= m < acc2.len() implies witnessed(
                    bs,
                    q,
                    #[trigger] acc2[m],
                ) by {
                    if m == j {
                        if sc > acc[j].score {
                            assert(wit_at(bs, q, merged, bi, lj));
                        } else {
                            let (wi, wj) = choose|wi: int, wj: int| wit_at(bs, q, acc[j], wi, wj);
                            assert(wit_at(bs, q, merged, wi, wj));
                        }
                    }
                }
            },
            None => {
                let fresh = fresh_res(l, sc);
                let acc2 = acc.push(fresh);
                assert(wit_at(bs, q, fresh, bi, lj));
                assert forall|m: int| 0 <= m < acc2.len() implies witnessed(
                    bs,
                    q,
                    #[trigger] acc2[m],
                ) by {
                    if m < acc.len() {
                        assert(acc2[m] == acc[m]);
                    }
                }
            },
        }
    }
}

proof fn lemma_apply_locs_props(
    acc: Seq<ResultModel>,
    q: Seq<char>,
    bs: Seq<BucketModel>,
    bi: int,
    k: int,
)
    requires
        0 <= bi < bs.len(),
        0 <= k <= bs[bi].locs.len(),
        has_sub(bs[bi].term, q),
        keys_distinct(acc),
        forall|m: int| 0 <= m < acc.len() ==> witnessed(bs, q, #[trigger] acc[m]),
    ensures
        keys_distinct(apply_locs(acc, bs[bi].term, q, bs[bi].locs, k)),
        forall|m: int|
            0 <= m < apply_locs(acc, bs[bi].term, q, bs[bi].locs, k).len() ==> witnessed(
                bs,
                q,
                #[trigger] apply_locs(acc, bs[bi].term, q, bs[bi].locs, k)[m],
            ),
    decreases bs[bi].locs.len() - k,
{
    if k < bs[bi].locs.len() {
        lemma_apply_loc_props(acc, q, bs, bi, k);
        lemma_apply_locs_props(apply_loc(acc, bs[bi].term, q, bs[bi].locs[k]), q, bs, bi, k + 1);
    }
}

proof fn lemma_apply_buckets_props(acc: Seq<ResultModel>, bs: Seq<BucketModel>, q: Seq<char>, i: int)
    requires
        0 <= i <= bs.len(),
        keys_distinct(acc),
        forall|m: int| 0 <= m < acc.len() ==> witnessed(bs, q, #[trigger] acc[m]),
    ensures
        keys_distinct(apply_buckets(acc, bs, q, i)),
        forall|m: int|
            0 <= m < apply_buckets(acc, bs, q, i).len() ==> witnessed(
                bs,
                q,
                #[trigger] apply_buckets(acc, bs, q, i)[m],
            ),
    decreases bs.len() - i,
{
    if i < bs.len() {
        if has_sub(bs[i].term, q) {
            lemma_apply_locs_props(acc, q, bs, i, 0);
            lemma_apply_buckets_props(apply_locs(acc, bs[i].term, q, bs[i].locs, 0), bs, q, i + 1);
        } else {
            lemma_apply_buckets_props(acc, bs, q, i + 1);
        }
    }
}

proof fn lemma_gathered_props(ix: IndexModel, q: Seq<char>)
    ensures
        keys_distinct(gathered(ix, q)),
        forall|m: int|
            0 <= m < gathered(ix, q).len() ==> witnessed(ix.buckets, q, #[trigger] gathered(
                ix,
                q,
            )[m]),
{
    lemma_apply_buckets_props(Seq::empty(), ix.buckets, q, 0);
}

proof fn lemma_res_before_irrefl(a: ResultModel)
    ensures
        !res_before(a, a),
{
}

proof fn lemma_res_before_trans(a: ResultModel, b: ResultModel, c: ResultModel)
    requires
        res_before(a, b),
        res_before(b, c),
    ensures
        res_before(a, c),
{
}

proof fn lemma_insert_res_elems(r: ResultModel, s: Seq<ResultModel>)
    ensures
        insert_res(r, s).len() == s.len() + 1,
        forall|m: int|
            0 <= m < insert_res(r, s).len() ==> (#[trigger] insert_res(r, s)[m] == r || s.contains(
                insert_res(r, s)[m],
            )),
        forall|key: (int, Option<int>)|
            #[trigger] has_key(insert_res(r, s), key) <==> (key == res_key(r) || has_key(s, key)),
    decreases s.len(),
{
    let ins = insert_res(r, s);
    if s.len() == 0 {
        assert forall|key: (int, Option<int>)| #[trigger]
            has_key(ins, key) <==> (key == res_key(r) || has_key(s, key)) by {
            assert(res_key(ins[0]) == res_key(r));
        }
    } else if res_before(r, s[0]) {
        assert forall|m: int|
            0 <= m < ins.len() implies (#[trigger] ins[m] == r || s.contains(ins[m])) by {
            if m > 0 {
                assert(ins[m] == s[m - 1]);
            }
        }
        assert forall|key: (int, Option<int>)| #[trigger]
            has_key(ins, key) <==> (key == res_key(r) || has_key(s, key)) by {
            if has_key(ins, key) {
                let i = choose|i: int| 0 <= i < ins.len() && res_key(#[trigger] ins[i]) == key;
                if i > 0 {
                    assert(res_key(s[i - 1]) == key);
                }
            }
            if key == res_key(r) {
                assert(res_key(ins[0]) == key);
            }
            if has_key(s, key) {
                let i = choose|i: int| 0 <= i < s.len() && res_key(#[trigger] s[i]) == key;
                assert(res_key(ins[i + 1]) == key);
            }
        }
    } else {
        lemma_insert_res_elems(r, s.drop_first());
        let tail = insert_res(r, s.drop_first());
        assert forall|m: int|
            0 <= m < ins.len() implies (#[trigger] ins[m] == r || s.contains(ins[m])) by {
            if m > 0 {
                assert(ins[m] == tail[m - 1]);
                if tail[m - 1] != r {
                    assert(s.drop_first().contains(tail[m - 1]));
                    let p = choose|p: int|
                        0 <= p < s.drop_first().len() && #[trigger] s.drop_first()[p] == tail[m
                            - 1];
                    assert(s[p + 1] == tail[m - 1]);
                }
            } else {
                assert(s.contains(s[0]));
            }
        }
        assert forall|key: (int, Option<int>)| #[trigger]
            has_key(ins, key) <==> (key == res_key(r) || has_key(s, key)) by {
            if has_key(ins, key) {
                let i = choose|i: int| 0 <= i < ins.len() && res_key(#[trigger] ins[i]) == key;
                if i == 0 {
                    assert(res_key(s[0]) == key);
                } else {
                    assert(res_key(tail[i - 1]) == key);
                    assert(has_key(tail, key));
                    if has_key(s.drop_first(), key) {
                        let p = choose|p: int|
                            0 <= p < s.drop_first().len() && res_key(
                                #[trigger] s.drop_first()[p],
                            ) == key;
                        assert(res_key(s[p + 1]) == key);
                    }
                }
            }
            if key == res_key(r) || has_key(s, key) {
                if key == res_key(r) {
                    assert(has_key(tail, key));
                    let p = choose|p: int|
                        0 <= p < tail.len() && res_key(#[trigger] tail[p]) == key;
                    assert(res_key(ins[p + 1]) == key);
                } else {
                    let i = choose|i: int| 0 <= i < s.len() && res_key(#[trigger] s[i]) == key;
                    if i == 0 {
                        assert(res_key(ins[0]) == key);
                    } else {
                        assert(res_key(s.drop_first()[i - 1]) == key);
                        assert(has_key(s.drop_first(), key));
                        assert(has_key(tail, key));
                        let p = choose|p: int|
                            0 <= p < tail.len() && res_key(#[trigger] tail[p]) == key;
                        assert(res_key(ins[p + 1]) == key);
                    }
                }
            }
        }
    }
}

proof fn lemma_insert_res_distinct(r: ResultModel, s: Seq<ResultModel>)
    requires
        keys_distinct(s),
        !has_key(s, res_key(r)),
    ensures
        keys_distinct(insert_res(r, s)),
    decreases s.len(),
{
    let ins = insert_res(r, s);
    if s.len() == 0 {
    } else if res_before(r, s[0]) {
        assert forall|i: int, j: int|
            0 <= i < j < ins.len() implies res_key(ins[i]) != res_key(ins[j]) by {
            if i == 0 {
                assert(ins[j] == s[j - 1]);
                if res_key(s[j - 1]) == res_key(r) {
                    assert(has_key(s, res_key(r)));
                }
            } else {
                assert(ins[i] == s[i - 1] && ins[j] == s[j - 1]);
            }
        }
    } else {
        assert forall|k: int|
            0 <= k < s.drop_first().len() implies res_key(
                #[trigger] s.drop_first()[k],
            ) != res_key(r) by {
            if res_key(s[k + 1]) == res_key(r) {
                assert(has_key(s, res_key(r)));
            }
        }
        assert(!has_key(s.drop_first(), res_key(r)));
        lemma_insert_res_distinct(r, s.drop_first());
        lemma_insert_res_elems(r, s.drop_first());
        let tail = insert_res(r, s.drop_first());
        assert forall|i: int, j: int|
            0 <= i < j < ins.len() implies res_key(ins[i]) != res_key(ins[j]) by {
            if i == 0 {
                assert(ins[j] == tail[j - 1]);
                if res_key(tail[j - 1]) == res_key(s[0]) {
                    assert(has_key(tail, res_key(s[0])));
                    if has_key(s.drop_first(), res_key(s[0])) {
                        let p = choose|p: int|
                            0 <= p < s.drop_first().len() && res_key(
                                #[trigger] s.drop_first()[p],
                            ) == res_key(s[0]);
                        assert(res_key(s[p + 1]) == res_key(s[0]));
                        assert(false);
                    }
                    assert(res_key(s[0]) == res_key(r));
                    assert(has_key(s, res_key(r)));
                    assert(false);
                }
            } else {
                assert(ins[i] == tail[i - 1] && ins[j] == tail[j - 1]);
            }
        }
    }
}

proof fn lemma_insert_res_sorted(r: ResultModel, s: Seq<ResultModel>)
    requires
        sorted_res(s),
    ensures
        sorted_res(insert_res(r, s)),
    decreases s.len(),
{
    let ins = insert_res(r, s);
    if s.len() == 0 {
    } else if res_before(r, s[0]) {
        assert forall|i: int, j: int|
            0 <= i < j < ins.len() implies !res_before(ins[j], ins[i]) by {
            if i == 0 {
                assert(ins[j] == s[j - 1]);
                if res_before(s[j - 1], r) {
                    lemma_res_before_trans(s[j - 1], r, s[0]);
                    if j - 1 == 0 {
                        lemma_res_before_irrefl(s[0]);
                    }
                    assert(false);
                }
            } else {
                assert(ins[i] == s[i - 1] && ins[j] == s[j - 1]);
            }
        }
    } else {
        assert forall|i: int, j: int|
            0 <= i < j < s.drop_first().len() implies !res_before(
                #[trigger] s.drop_first()[j],
                #[trigger] s.drop_first()[i],
            ) by {
            assert(s.drop_first()[i] == s[i + 1] && s.drop_first()[j] == s[j + 1]);
        }
        lemma_insert_res_sorted(r, s.drop_first());
        lemma_insert_res_elems(r, s.drop_first());
        let tail = insert_res(r, s.drop_first());
        assert forall|i: int, j: int|
            0 <= i < j < ins.len() implies !res_before(ins[j], ins[i]) by {
            if i == 0 {
                assert(ins[j] == tail[j - 1]);
                if tail[j - 1] == r {
                    assert(!res_before(r, s[0]));
                } else {
                    assert(s.drop_first().contains(tail[j - 1]));
                    let p = choose|p: int|
                        0 <= p < s.drop_first().len() && #[trigger] s.drop_first()[p] == tail[j
                            - 1];
                    assert(tail[j - 1] == s[p + 1]);
                }
            } else {
                assert(ins[i] == tail[i - 1] && ins[j] == tail[j - 1]);
            }
        }
    }
}

proof fn lemma_sort_pass_props(
    acc: Seq<ResultModel>,
    s: Seq<ResultModel>,
    k: int,
    bs: Seq<BucketModel>,
    q: Seq<char>,
)
    requires
        0 <= k <= s.len(),
        sorted_res(acc),
        keys_distinct(acc),
        keys_distinct(s),
        forall|m: int| 0 <= m < acc.len() ==> witnessed(bs, q, #[trigger] acc[m]),
        forall|m: int| k <= m < s.len() ==> witnessed(bs, q, #[trigger] s[m]),
        forall|m: int| k <= m < s.len() ==> !has_key(acc, res_key(#[trigger] s[m])),
    ensures
        sorted_res(sort_pass(acc, s, k)),
        keys_distinct(sort_pass(acc, s, k)),
        forall|m: int|
            0 <= m < sort_pass(acc, s, k).len() ==> witnessed(
                bs,
                q,
                #[trigger] sort_pass(acc, s, k)[m],
            ),
    decreases s.len() - k,
{
    if k < s.len() {
        let ins = insert_res(s[k], acc);
        lemma_insert_res_sorted(s[k], acc);
        lemma_insert_res_distinct(s[k], acc);
        lemma_insert_res_elems(s[k], acc);
        assert forall|m: int| 0 <= m < ins.len() implies witnessed(bs, q, #[trigger] ins[m]) by {
            if ins[m] != s[k] {
                assert(acc.contains(ins[m]));
            }
        }
        assert forall|m: int|
            k + 1 <= m < s.len() implies !has_key(ins, res_key(#[trigger] s[m])) by {
            if has_key(ins, res_key(s[m])) {
                assert(res_key(s[m]) == res_key(s[k]) || has_key(acc, res_key(s[m])));
            }
        }
        lemma_sort_pass_props(ins, s, k + 1, bs, q);
    }
}

/// Law: for any index and query, the results of a search are ranked —
/// sorted by descending relevance score with ties broken by ascending
/// (section, entry) key — and hold at most one result per catalog entry.
pub proof fn lemma_search_model_ranked(ix: IndexModel, query: Seq<char>)
    ensures
        sorted_res(search_model(ix, query)),
        keys_distinct(search_model(ix, query)),
        forall|i: int, j: int|
            0 <= i < j < search_model(ix, query).len() ==> search_model(ix, query)[i].score
                >= search_model(ix, query)[j].score,
{
    if query.len() != 0 {
        let q = lower_of(query);
        lemma_gathered_props(ix, q);
        lemma_sort_pass_props(Seq::empty(), gathered(ix, q), 0, ix.buckets, q);
    }
    let s = search_model(ix, query);
    assert forall|i: int, j: int| 0 <= i < j < s.len() implies s[i].score >= s[j].score by {
        assert(!res_before(s[j], s[i]));
    }
}

/// Law: raw-content locations never reach query results. Every result of a
/// search is backed by a non-raw-content location of a term containing the
/// query, which gives it exactly its score; in particular every score is
/// at least 60 (a bare contains-match on a description) and positive.
pub proof fn lemma_search_model_non_raw(ix: IndexModel, query: Seq<char>)
    ensures
        forall|m: int|
            0 <= m < search_model(ix, query).len() ==> witnessed(
                ix.buckets,
                lower_of(query),
                #[trigger] search_model(ix, query)[m],
            ),
        forall|m: int|
            0 <= m < search_model(ix, query).len() ==> #[trigger] search_model(
                ix,
                query,
            )[m].score >= 60,
{
    if query.len() != 0 {
        let q = lower_of(query);
        lemma_gathered_props(ix, q);
        lemma_sort_pass_props(Seq::empty(), gathered(ix, q), 0, ix.buckets, q);
        assert forall|m: int|
            0 <= m < search_model(ix, query).len() implies #[trigger] search_model(
            ix,
            query,
        )[m].score >= 60 by {
            let r = search_model(ix, query)[m];
            assert(witnessed(ix.buckets, q, r));
            let (wi, wj) = choose|wi: int, wj: int| wit_at(ix.buckets, q, r, wi, wj);
            let rp = rel_points(ix.buckets[wi].term, q) as int;
            let mu = ix.buckets[wi].locs[wj].priority.spec_multiplier() as int;
            assert(r.score == rp * mu);
            assert(rp >= 4);
            assert(mu >= 15);
            assert(rp * mu >= 60) by (nonlinear_arith)
                requires
                    rp >= 4,
                    mu >= 15,
            ;
        }
    }
}

/// Law: for one term and one query, a repository-name location always
/// outranks a description location of the same match class.
pub proof fn lemma_name_outranks_description(term: Seq<char>, q: Seq<char>)
    ensures
        match_points(term, q, SearchPriority::RepositoryName) > match_points(
            term,
            q,
            SearchPriority::Description,
        ),
{
    let r = rel_points(term, q) as int;
    assert(r >= 4);
    assert(r * 20 > r * 15) by (nonlinear_arith)
        requires
            r >= 4,
    ;
}

} // verus!
