//! The catalog extractor: a state machine over markdown events that
//! builds sections of repository entries, the entry splitter that derives
//! titles, descriptions and tags, and the index builder that feeds the
//! query engine.

use vstd::prelude::*;

use crate::models::{
    EntryModel, ParseError, ReadmeContent, ReadmeMetadata, RepositoryEntry, Section, SectionModel,
    ThemeColorPalette, ThemeEntry, ThemeError, entry_views, section_views, total_entries_of,
};
use crate::search::{
    IndexModel, LocationModel, SearchIndex, SearchLocation, SearchPriority, add_term_model,
    index_wf, opt_int,
};
use crate::text::{
    blank_of, blank_str, byte_len_of, chars_of, count_char_in, count_ch, find_in, find_substring,
    has_sub, has_substring, longer_than_two_bytes, lower_of, lowercase, split_words,
    starts_with_chars, starts_with_s, string_of, sub_chars, trim_chars, trim_of, word_views,
    words_of,
};
use crate::tokens::{MdEvent, events_of, tokenize};
use vstd::string::StringExecFns;

verus! {

/// Heading fragments that exclude a section from the catalog, matched
/// case-insensitively.
pub open spec fn exclusion_terms() -> Seq<Seq<char>> {
    seq![
        "Contents"@,
        "Table of Contents"@,
        "TOC"@,
        "Contributing"@,
        "License"@,
        "Awesome"@,
        "Badge"@,
    ]
}

/// A heading opens a catalog section unless it contains one of the
/// exclusion fragments, case-insensitively: the policy defaults to
/// inclusive.
pub open spec fn section_included(header: Seq<char>) -> bool {
    forall|i: int|
        0 <= i < exclusion_terms().len() ==> !has_sub(
            lower_of(header),
            lower_of(#[trigger] exclusion_terms()[i]),
        )
}

/// A URL names a GitHub repository: it starts with the GitHub host, has at
/// least four slashes (owner and repository at minimum), and is not an
/// issues, wiki or releases page.
pub open spec fn is_github_repo(url: Seq<char>) -> bool {
    &&& starts_with_s(url, "https://github.com/"@)
    &&& count_ch(url, '/') >= 4
    &&& !has_sub(url, "/issues"@)
    &&& !has_sub(url, "/wiki"@)
    &&& !has_sub(url, "/releases"@)
}

/// How a list item's text splits into title and description: at the first
/// " - ", else at the first ": ", else the whole trimmed text is the title
/// and the description is empty.
pub open spec fn split_parts(text: Seq<char>) -> (Seq<char>, Seq<char>) {
    let t = trim_of(text);
    match find_in(t, " - "@) {
        Some(p) => (trim_of(t.take(p)), trim_of(t.skip(p + 3))),
        None => match find_in(t, ": "@) {
            Some(p) => (trim_of(t.take(p)), trim_of(t.skip(p + 2))),
            None => (t, Seq::empty()),
        },
    }
}

/// The fixed, ordered table of (indicator substring, tag) pairs scanned
/// over a lowercased description.
pub open spec fn tag_rules() -> Seq<(Seq<char>, Seq<char>)> {
    seq![
        ("rust"@, "rust"@),
        ("python"@, "python"@),
        ("javascript"@, "javascript"@),
        ("typescript"@, "typescript"@),
        ("golang"@, "go"@),
        ("java"@, "java"@),
        ("c++"@, "cpp"@),
        ("cli"@, "command-line"@),
        ("web"@, "web"@),
        ("api"@, "api"@),
        ("tool"@, "tool"@),
        ("library"@, "library"@),
        ("framework"@, "framework"@),
        ("plugin"@, "plugin"@),
        ("extension"@, "extension"@),
    ]
}

/// The tags whose indicator occurs in `lo`, in table order, from rule `i`
/// on.
pub open spec fn tags_from(lo: Seq<char>, i: int) -> Seq<Seq<char>>
    recommends
        0 <= i <= tag_rules().len(),
    decreases tag_rules().len() - i,
    when 0 <= i <= tag_rules().len()
{
    if i >= tag_rules().len() {
        Seq::empty()
    } else {
        let rest = tags_from(lo, i + 1);
        if has_sub(lo, tag_rules()[i].0) {
            seq![tag_rules()[i].1] + rest
        } else {
            rest
        }
    }
}

/// The tags of a description: every indicator found in its lowercase form
/// contributes its tag, in table order, duplicates possible.
pub open spec fn tags_of(description: Seq<char>) -> Seq<Seq<char>> {
    tags_from(lower_of(description), 0)
}

/// The entry made from one list item's accumulated text and captured URL.
pub open spec fn entry_of(item_text: Seq<char>, url: Seq<char>) -> EntryModel {
    let parts = split_parts(item_text);
    EntryModel { title: parts.0, url: url, description: parts.1, tags: tags_of(parts.1) }
}

/// Parser for curated "awesome list" README markdown content.
pub struct ReadmeParser {
    /// Common section headers found in such lists; advisory only, since
    /// the inclusion policy defaults to inclusive.
    known_sections: Vec<&'static str>,
    /// Heading fragments excluded from parsing (table of contents, badges
    /// and the like).
    exclusion_patterns: Vec<&'static str>,
}

impl ReadmeParser {
    /// The exclusion table matches `exclusion_terms`, pattern for pattern.
    pub closed spec fn wf(&self) -> bool {
        &&& self.exclusion_patterns@.len() == exclusion_terms().len()
        &&& forall|i: int|
            0 <= i < exclusion_terms().len() ==> (#[trigger] self.exclusion_patterns@[i])@
                == exclusion_terms()[i]
    }

    pub fn new() -> (r: Self)
        ensures
            r.wf(),
    {
        let known_sections: Vec<&'static str> = vec![
            "Official Resources",
            "Alternative Implementations",
            "Themes",
            "Development Tools",
            "Related Projects",
            "Community Resources",
            "Documentation",
            "Tutorials",
            "Examples",
            "Libraries",
            "Plugins",
            "Extensions",
            "Integrations",
            "Testing",
            "Deployment",
            "Monitoring",
            "Security",
            "Performance",
            "Utilities",
            "Resources",
        ];
        let exclusion_patterns: Vec<&'static str> = vec![
            "Contents",
            "Table of Contents",
            "TOC",
            "Contributing",
            "License",
            "Awesome",
            "Badge",
        ];
        ReadmeParser { known_sections, exclusion_patterns }
    }

    /// Whether a heading opens a catalog section: true unless the heading
    /// contains an exclusion fragment, case-insensitively. The allow-lists
    /// of known section names and category indicators are advisory and
    /// never reject a heading, so inclusion is the default.
    pub fn should_parse_section(&self, header: &str) -> (r: bool)
        requires
            self.wf(),
        ensures
            r == section_included(header@),
    {
        let header_lower = lowercase(header);
        let hl = chars_of(header_lower.as_str());
        let n = self.exclusion_patterns.len();
        let mut i: usize = 0;
        while i < n
            invariant
                self.wf(),
                n == exclusion_terms().len(),
                i <= n,
                hl@ == lower_of(header@),
                forall|k: int|
                    0 <= k < i ==> !has_sub(lower_of(header@), lower_of(exclusion_terms()[k])),
            decreases n - i,
        {
            let pat_lower = lowercase(self.exclusion_patterns[i]);
            let pl = chars_of(pat_lower.as_str());
            if has_substring(&hl, &pl) {
                return false;
            }
            i = i + 1;
        }
        // The allow-lists below are advisory: whether or not a known
        // section name or category indicator matches, a heading that
        // passed the exclusion check is included.
        let mut k: usize = 0;
        while k < self.known_sections.len()
            invariant
                section_included(header@),
                hl@ == lower_of(header@),
            decreases self.known_sections@.len() - k,
        {
            let known_lower = lowercase(self.known_sections[k]);
            let kl = chars_of(known_lower.as_str());
            if has_substring(&hl, &kl) {
                return true;
            }
            k = k + 1;
        }
        let category_indicators: Vec<&'static str> = vec![
            "tools",
            "libraries",
            "resources",
            "projects",
            "extensions",
            "plugins",
            "integrations",
            "frameworks",
            "platforms",
            "services",
            "utilities",
            "apps",
            "applications",
            "implementations",
            "solutions",
        ];
        let mut c: usize = 0;
        while c < category_indicators.len()
            invariant
                section_included(header@),
                hl@ == lower_of(header@),
            decreases category_indicators@.len() - c,
        {
            let il = chars_of(category_indicators[c]);
            if has_substring(&hl, &il) {
                return true;
            }
            c = c + 1;
        }
        true
    }

    /// Whether `url` names a GitHub repository.
    pub fn is_github_link(&self, url: &str) -> (r: bool)
        ensures
            r == is_github_repo(url@),
    {
        let u = chars_of(url);
        let prefix = chars_of("https://github.com/");
        if !starts_with_chars(&u, &prefix) {
            return false;
        }
        if count_char_in(&u, '/') < 4 {
            return false;
        }
        let issues = chars_of("/issues");
        if has_substring(&u, &issues) {
            return false;
        }
        let wiki = chars_of("/wiki");
        if has_substring(&u, &wiki) {
            return false;
        }
        let releases = chars_of("/releases");
        !has_substring(&u, &releases)
    }

    /// Split a list item's text into title and description.
    pub fn split_title_description(&self, text: &str) -> (r: (String, String))
        ensures
            r.0@ == split_parts(text@).0,
            r.1@ == split_parts(text@).1,
    {
        let tv = chars_of(text);
        let t = trim_chars(&tv);
        let tlen = t.len();
        let dash = chars_of(" - ");
        if let Some(p) = find_substring(&t, &dash) {
            proof {
                reveal_strlit(" - ");
                crate::text::lemma_find_in_props(t@, dash@);
                assert(p + 3 <= t@.len());
            }
            let left = trim_chars(&sub_chars(&t, 0, p));
            let right = trim_chars(&sub_chars(&t, p + 3, tlen));
            return (string_of(&left), string_of(&right));
        }
        let colon = chars_of(": ");
        if let Some(p) = find_substring(&t, &colon) {
            proof {
                reveal_strlit(": ");
                crate::text::lemma_find_in_props(t@, colon@);
                assert(p + 2 <= t@.len());
            }
            let left = trim_chars(&sub_chars(&t, 0, p));
            let right = trim_chars(&sub_chars(&t, p + 2, tlen));
            return (string_of(&left), string_of(&right));
        }
        (string_of(&t), String::new())
    }

    /// The indicator and tag of tag rule `i`.
    fn tag_rule(i: usize) -> (r: (&'static str, &'static str))
        requires
            i < tag_rules().len(),
        ensures
            r.0@ == tag_rules()[i as int].0,
            r.1@ == tag_rules()[i as int].1,
    {
        match i {
            0 => ("rust", "rust"),
            1 => ("python", "python"),
            2 => ("javascript", "javascript"),
            3 => ("typescript", "typescript"),
            4 => ("golang", "go"),
            5 => ("java", "java"),
            6 => ("c++", "cpp"),
            7 => ("cli", "command-line"),
            8 => ("web", "web"),
            9 => ("api", "api"),
            10 => ("tool", "tool"),
            11 => ("library", "library"),
            12 => ("framework", "framework"),
            13 => ("plugin", "plugin"),
            _ => ("extension", "extension"),
        }
    }

    /// Extract tags from a description: every indicator substring found in
    /// its lowercase form appends its tag, in table order.
    pub fn extract_tags(&self, description: &str) -> (r: Vec<String>)
        ensures
            r@.map_values(|t: String| t@) == tags_of(description@),
    {
        let mut tags: Vec<String> = Vec::new();
        let dl = lowercase(description);
        let dlc = chars_of(dl.as_str());
        let n: usize = 15;
        let mut i: usize = 0;
        proof {
            assert(tags@.map_values(|t: String| t@) =~= Seq::<Seq<char>>::empty());
        }
        while i < n
            invariant
                n == tag_rules().len(),
                i <= n,
                dlc@ == lower_of(description@),
                tags@.map_values(|t: String| t@) + tags_from(lower_of(description@), i as int)
                    == tags_of(description@),
            decreases n - i,
        {
            let rule = Self::tag_rule(i);
            let pat = chars_of(rule.0);
            if has_substring(&dlc, &pat) {
                tags.push(String::from_str(rule.1));
                proof {
                    assert(tags@.map_values(|t: String| t@) =~~= tags@.drop_last().map_values(
                        |t: String| t@,
                    ) + seq![tag_rules()[i as int].1]);
                    assert(tags@.map_values(|t: String| t@) + tags_from(
                        lower_of(description@),
                        i + 1,
                    ) =~~= tags_of(description@));
                }
            }
            i = i + 1;
        }
        tags
    }

    /// Build the repository entry for one list item: split the text, then
    /// extract tags from the description.
    pub fn extract_repository_entry(&self, text: &str, url: &str) -> (r: RepositoryEntry)
        ensures
            r@ == entry_of(text@, url@),
    {
        let parts = self.split_title_description(text);
        let tags = self.extract_tags(parts.1.as_str());
        let r = RepositoryEntry {
            title: parts.0,
            url: String::from_str(url),
            description: parts.1,
            tags,
        };
        proof {
            assert(r@ =~~= entry_of(text@, url@));
        }
        r
    }
}

impl Default for ReadmeParser {
    fn default() -> (r: Self)
        ensures
            r.wf(),
    {
        ReadmeParser::new()
    }
}

/// The view of an optional borrowed string.
pub open spec fn opt_str_chars(o: Option<&str>) -> Option<Seq<char>> {
    match o {
        Some(s) => Some(s@),
        None => None,
    }
}

/// The location recorded for every word of one source text: the full,
/// untruncated text, its span in bytes, and the origin's priority.
pub open spec fn loc_for(
    text: Seq<char>,
    sec: int,
    entry: Option<int>,
    priority: SearchPriority,
    url: Option<Seq<char>>,
) -> LocationModel {
    LocationModel {
        section: sec,
        entry: entry,
        line: text,
        start: 0,
        end: byte_len_of(text),
        priority: priority,
        url: url,
    }
}

/// The cleaned form of one raw word: non-alphanumeric characters stripped,
/// trimmed, lowercased.
pub open spec fn clean_word(w: Seq<char>) -> Seq<char> {
    lower_of(trim_of(crate::text::filtered_chars(w)))
}

/// Whether a raw word reaches the index: longer than two bytes both before
/// and after cleaning.
pub open spec fn word_registered(w: Seq<char>) -> bool {
    byte_len_of(w) > 2 && clean_word(w).len() > 0 && byte_len_of(clean_word(w)) > 2
}

/// The words of one text registered into the index, from word `k` on.
pub open spec fn index_words(
    ix: IndexModel,
    ws: Seq<Seq<char>>,
    k: int,
    loc: LocationModel,
) -> IndexModel
    recommends
        0 <= k <= ws.len(),
    decreases ws.len() - k,
    when 0 <= k <= ws.len()
{
    if k >= ws.len() {
        ix
    } else {
        let ix2 = if word_registered(ws[k]) {
            add_term_model(ix, lower_of(clean_word(ws[k])), loc)
        } else {
            ix
        };
        index_words(ix2, ws, k + 1, loc)
    }
}

/// What indexing one text does: each qualifying word of the text is
/// registered under its cleaned form, pointing at the same location.
pub open spec fn index_text_model(
    ix: IndexModel,
    text: Seq<char>,
    sec: int,
    entry: Option<int>,
    priority: SearchPriority,
    url: Option<Seq<char>>,
) -> IndexModel {
    index_words(ix, words_of(text), 0, loc_for(text, sec, entry, priority, url))
}

/// The entries of one section indexed, from entry `k` on: the title under
/// repository-name priority, then a non-empty description under
/// description priority.
pub open spec fn index_entries(ix: IndexModel, es: Seq<EntryModel>, si: int, k: int) -> IndexModel
    recommends
        0 <= k <= es.len(),
    decreases es.len() - k,
    when 0 <= k <= es.len()
{
    if k >= es.len() {
        ix
    } else {
        let e = es[k];
        let ix1 = index_text_model(
            ix,
            e.title,
            si,
            Some(k),
            SearchPriority::RepositoryName,
            Some(e.url),
        );
        let ix2 = if e.description.len() > 0 {
            index_text_model(ix1, e.description, si, Some(k), SearchPriority::Description, Some(e.url))
        } else {
            ix1
        };
        index_entries(ix2, es, si, k + 1)
    }
}

/// The sections indexed in order, from section `i` on. Section titles and
/// raw section text are deliberately not indexed.
pub open spec fn index_sections(ix: IndexModel, ss: Seq<SectionModel>, i: int) -> IndexModel
    recommends
        0 <= i <= ss.len(),
    decreases ss.len() - i,
    when 0 <= i <= ss.len()
{
    if i >= ss.len() {
        ix
    } else {
        index_sections(index_entries(ix, ss[i].entries, i, 0), ss, i + 1)
    }
}

/// The index a catalog with these sections gets.
pub open spec fn index_of(secs: Seq<SectionModel>) -> IndexModel {
    index_sections(IndexModel { buckets: Seq::empty(), total: 0 }, secs, 0)
}

proof fn lemma_index_words_wf(ix: IndexModel, ws: Seq<Seq<char>>, k: int, loc: LocationModel)
    requires
        0 <= k <= ws.len(),
        index_wf(ix),
    ensures
        index_wf(index_words(ix, ws, k, loc)),
    decreases ws.len() - k,
{
    if k < ws.len() {
        if word_registered(ws[k]) {
            crate::search::lemma_add_term_wf(ix, lower_of(clean_word(ws[k])), loc);
            lemma_index_words_wf(add_term_model(ix, lower_of(clean_word(ws[k])), loc), ws, k + 1, loc);
        } else {
            lemma_index_words_wf(ix, ws, k + 1, loc);
        }
    }
}

proof fn lemma_index_entries_wf(ix: IndexModel, es: Seq<EntryModel>, si: int, k: int)
    requires
        0 <= k <= es.len(),
        index_wf(ix),
    ensures
        index_wf(index_entries(ix, es, si, k)),
    decreases es.len() - k,
{
    if k < es.len() {
        let e = es[k];
        let ix1 = index_text_model(ix, e.title, si, Some(k), SearchPriority::RepositoryName, Some(e.url));
        lemma_index_words_wf(
            ix,
            words_of(e.title),
            0,
            loc_for(e.title, si, Some(k), SearchPriority::RepositoryName, Some(e.url)),
        );
        let ix2 = if e.description.len() > 0 {
            index_text_model(ix1, e.description, si, Some(k), SearchPriority::Description, Some(e.url))
        } else {
            ix1
        };
        if e.description.len() > 0 {
            lemma_index_words_wf(
                ix1,
                words_of(e.description),
                0,
                loc_for(e.description, si, Some(k), SearchPriority::Description, Some(e.url)),
            );
        }
        lemma_index_entries_wf(ix2, es, si, k + 1);
    }
}

proof fn lemma_index_sections_wf(ix: IndexModel, ss: Seq<SectionModel>, i: int)
    requires
        0 <= i <= ss.len(),
        index_wf(ix),
    ensures
        index_wf(index_sections(ix, ss, i)),
    decreases ss.len() - i,
{
    if i < ss.len() {
        lemma_index_entries_wf(ix, ss[i].entries, i, 0);
        lemma_index_sections_wf(index_entries(ix, ss[i].entries, i, 0), ss, i + 1);
    }
}

/// The index built over any sections is well-formed: one bucket per term.
pub proof fn lemma_index_of_wf(secs: Seq<SectionModel>)
    ensures
        index_wf(index_of(secs)),
{
    lemma_index_sections_wf(IndexModel { buckets: Seq::empty(), total: 0 }, secs, 0);
}

/// The parsing state carried across one left-to-right pass over the event
/// stream: finished sections, the section being built, and the small
/// accumulators for headings, list items and captured links.
#[verifier::ext_equal]
pub ghost struct ExtractState {
    pub done: Seq<SectionModel>,
    pub cur: Option<SectionModel>,
    pub in_header: bool,
    pub header_level: u32,
    pub header_text: Seq<char>,
    pub in_item: bool,
    pub item_text: Seq<char>,
    pub link_url: Seq<char>,
    pub title: Seq<char>,
    pub title_captured: bool,
}

/// The state before any event: no sections, nothing open, and the default
/// document title.
pub open spec fn init_state() -> ExtractState {
    ExtractState {
        done: Seq::empty(),
        cur: None,
        in_header: false,
        header_level: 0,
        header_text: Seq::empty(),
        in_item: false,
        item_text: Seq::empty(),
        link_url: Seq::empty(),
        title: "Awesome Omarchy"@,
        title_captured: false,
    }
}

/// Inline text lands in the header buffer inside a heading; otherwise in
/// the open item's buffer and in the open section's raw text.
pub open spec fn append_text(st: ExtractState, s: Seq<char>) -> ExtractState {
    if st.in_header {
        ExtractState { header_text: st.header_text + s, ..st }
    } else {
        let st1 = if st.in_item {
            ExtractState { item_text: st.item_text + s, ..st }
        } else {
            st
        };
        match st1.cur {
            Some(c) => ExtractState { cur: Some(SectionModel { raw: c.raw + s, ..c }), ..st1 },
            None => st1,
        }
    }
}

/// A heading closes: its trimmed text becomes the document title if it is
/// the first level-1 heading; a level-2-or-deeper heading that passes the
/// section filter finishes the open section and opens a new one.
pub open spec fn heading_end(st: ExtractState) -> ExtractState {
    let header = trim_of(st.header_text);
    let fresh_title = !st.title_captured && st.header_level == 1;
    let title2 = if fresh_title {
        header
    } else {
        st.title
    };
    let captured2 = st.title_captured || st.header_level == 1;
    if st.header_level >= 2 && section_included(header) {
        ExtractState {
            done: match st.cur {
                Some(c) => st.done.push(c),
                None => st.done,
            },
            cur: Some(SectionModel { title: header, entries: Seq::empty(), raw: Seq::empty() }),
            in_header: false,
            title: title2,
            title_captured: captured2,
            ..st
        }
    } else {
        ExtractState { in_header: false, title: title2, title_captured: captured2, ..st }
    }
}

/// A list item closes: the open section's raw text always gains a newline;
/// an entry is extracted when an item was open, a link was captured, the
/// item text is not blank, a section is open, and the URL passes the
/// GitHub-repository filter. The item state resets unconditionally.
pub open spec fn item_end(st: ExtractState) -> ExtractState {
    let st1 = match st.cur {
        Some(c) => ExtractState { cur: Some(SectionModel { raw: c.raw.push('\n'), ..c }), ..st },
        None => st,
    };
    let st2 = if st1.in_item && st1.link_url.len() > 0 && !blank_of(st1.item_text) && st1.cur
        is Some && is_github_repo(st1.link_url) {
        match st1.cur {
            Some(c) => ExtractState {
                cur: Some(
                    SectionModel {
                        entries: c.entries.push(entry_of(st1.item_text, st1.link_url)),
                        ..c
                    },
                ),
                ..st1
            },
            None => st1,
        }
    } else {
        st1
    };
    ExtractState { in_item: false, item_text: Seq::empty(), link_url: Seq::empty(), ..st2 }
}

/// A line break appends a newline to the open item's buffer and to the
/// open section's raw text.
pub open spec fn line_break(st: ExtractState) -> ExtractState {
    let st1 = if st.in_item {
        ExtractState { item_text: st.item_text.push('\n'), ..st }
    } else {
        st
    };
    match st1.cur {
        Some(c) => ExtractState { cur: Some(SectionModel { raw: c.raw.push('\n'), ..c }), ..st1 },
        None => st1,
    }
}

/// The transition of the extractor on one markdown event.
pub open spec fn step(st: ExtractState, e: MdEvent) -> ExtractState {
    match e {
        MdEvent::HeadingStart(level) => ExtractState {
            in_header: true,
            header_level: level,
            header_text: Seq::empty(),
            ..st
        },
        MdEvent::HeadingEnd => if st.in_header {
            heading_end(st)
        } else {
            st
        },
        MdEvent::LinkStart(url) => ExtractState { link_url: url@, ..st },
        MdEvent::Text(t) => append_text(st, t@),
        MdEvent::Code(c) => append_text(st, c@),
        MdEvent::ItemStart => if !st.in_header {
            ExtractState { in_item: true, item_text: Seq::empty(), ..st }
        } else {
            st
        },
        MdEvent::ItemEnd => if !st.in_header {
            item_end(st)
        } else {
            st
        },
        MdEvent::LineBreak => if !st.in_header {
            line_break(st)
        } else {
            st
        },
        MdEvent::Other => st,
    }
}

/// The extractor state after the first `n` events.
pub open spec fn run_events(evs: Seq<MdEvent>, n: int) -> ExtractState
    recommends
        0 <= n <= evs.len(),
    decreases n,
    when 0 <= n <= evs.len()
{
    if n <= 0 {
        init_state()
    } else {
        step(run_events(evs, n - 1), evs[n - 1])
    }
}

/// The finished sections of a state: the open one, if any, is pushed last.
pub open spec fn final_sections(st: ExtractState) -> Seq<SectionModel> {
    match st.cur {
        Some(c) => st.done.push(c),
        None => st.done,
    }
}

/// The sections extracted from a whole event stream.
pub open spec fn extracted_sections(evs: Seq<MdEvent>) -> Seq<SectionModel> {
    final_sections(run_events(evs, evs.len() as int))
}

/// The document title extracted from a stream: the trimmed text of the
/// first level-1 heading, or the default title if there is none.
pub open spec fn extracted_title(evs: Seq<MdEvent>) -> Seq<char> {
    run_events(evs, evs.len() as int).title
}

proof fn lemma_total_push(ss: Seq<SectionModel>, c: SectionModel, i: int)
    requires
        0 <= i <= ss.len(),
    ensures
        total_entries_of(ss.push(c), i) == total_entries_of(ss, i) + c.entries.len(),
    decreases ss.len() - i,
{
    if i < ss.len() {
        lemma_total_push(ss, c, i + 1);
        assert(ss.push(c)[i] == ss[i]);
        assert(total_entries_of(ss.push(c), i) == ss[i].entries.len() + total_entries_of(
            ss.push(c),
            i + 1,
        ));
        assert(total_entries_of(ss, i) == ss[i].entries.len() + total_entries_of(ss, i + 1));
    } else {
        assert(ss.push(c)[i] == c);
        assert(total_entries_of(ss, i) == 0);
        assert(total_entries_of(ss.push(c), i + 1) == 0);
        assert(total_entries_of(ss.push(c), i) == c.entries.len() + total_entries_of(
            ss.push(c),
            i + 1,
        ));
    }
}

proof fn lemma_total_nonneg(ss: Seq<SectionModel>, i: int)
    requires
        0 <= i <= ss.len(),
    ensures
        total_entries_of(ss, i) >= 0,
    decreases ss.len() - i,
{
    if i < ss.len() {
        lemma_total_nonneg(ss, i + 1);
    }
}

proof fn lemma_step_count(st: ExtractState, e: MdEvent)
    ensures
        total_entries_of(final_sections(step(st, e)), 0) <= total_entries_of(
            final_sections(st),
            0,
        ) + 1,
{
    match st.cur {
        Some(c) => {
            lemma_total_push(st.done, c, 0);
        },
        None => {},
    }
    let st2 = step(st, e);
    match st2.cur {
        Some(c) => {
            lemma_total_push(st2.done, c, 0);
        },
        None => {},
    }
    if e is HeadingEnd && st.in_header && st.header_level >= 2 && section_included(
        trim_of(st.header_text),
    ) {
        match st.cur {
            Some(c) => {
                lemma_total_push(st.done.push(c), st2.cur->Some_0, 0);
                lemma_total_push(st.done, c, 0);
            },
            None => {},
        }
    }
}

proof fn lemma_run_count(evs: Seq<MdEvent>, n: int)
    requires
        0 <= n <= evs.len(),
    ensures
        total_entries_of(final_sections(run_events(evs, n)), 0) <= n,
    decreases n,
{
    if n > 0 {
        lemma_run_count(evs, n - 1);
        lemma_step_count(run_events(evs, n - 1), evs[n - 1]);
    }
}

/// The fields of a well-formed catalog produced from document text `md`:
/// its sections, title, metadata and index are exactly those the extractor
/// model assigns to the event stream of `md`.
pub open spec fn parsed_catalog(c: ReadmeContent, md: Seq<char>) -> bool {
    let secs = extracted_sections(events_of(md));
    &&& section_views(c.sections@) == secs
    &&& c.wf()
    &&& c@.metadata.title == extracted_title(events_of(md))
    &&& c@.metadata.description == "A curated list of awesome resources"@
    &&& c@.metadata.last_updated is None
    &&& c@.index == index_of(secs)
}

impl ReadmeParser {
    /// Parse one markdown document into a catalog. Blank input fails with
    /// `EmptyInput`; extraction that yields no section fails with
    /// `NoSectionsFound`; otherwise the catalog holds exactly the modeled
    /// sections, metadata and index.
    pub fn parse(&self, markdown_content: &str) -> (r: Result<ReadmeContent, ParseError>)
        requires
            self.wf(),
        ensures
            blank_of(markdown_content@) ==> r == Err::<ReadmeContent, ParseError>(
                ParseError::EmptyInput,
            ),
            !blank_of(markdown_content@) ==> {
                let secs = extracted_sections(events_of(markdown_content@));
                &&& (secs.len() == 0 ==> r == Err::<ReadmeContent, ParseError>(
                    ParseError::NoSectionsFound,
                ))
                &&& (secs.len() > 0 ==> r is Ok && parsed_catalog(r->Ok_0, markdown_content@))
            },
    {
        if blank_str(markdown_content) {
            return Err(ParseError::EmptyInput);
        }
        let events = tokenize(markdown_content);
        let extracted = self.extract(&events);
        let sections = extracted.0;
        let metadata = extracted.1;
        let search_index = self.build_search_index(&sections);
        if sections.len() == 0 {
            return Err(ParseError::NoSectionsFound);
        }
        let content = ReadmeContent { sections, search_index, metadata };
        proof {
            assert(parsed_catalog(content, markdown_content@));
        }
        Ok(content)
    }

    /// Run the extractor state machine over one event stream, as any
    /// compliant tokenizer would produce it: the finished sections in
    /// order, and the document metadata with its recomputed entry total.
    pub fn extract(&self, events: &Vec<MdEvent>) -> (r: (Vec<Section>, ReadmeMetadata))
        requires
            self.wf(),
        ensures
            ({
                let st = run_events(events@, events@.len() as int);
                &&& section_views(r.0@) == final_sections(st)
                &&& (forall|q: int| 0 <= q < r.0@.len() ==> (#[trigger] r.0@[q]).wf())
                &&& r.1@.title == st.title
                &&& r.1@.description == "A curated list of awesome resources"@
                &&& r.1@.last_updated is None
                &&& r.1.total_entries as int == total_entries_of(final_sections(st), 0)
            }),
    {
        let ghost evs = events@;

        let mut sections: Vec<Section> = Vec::new();
        let mut cur: Section = Section::new(String::new());
        let mut cur_open: bool = false;
        let mut is_in_header: bool = false;
        let mut current_header_level: u32 = 0;
        let mut header_text = String::new();
        let mut link_url = String::new();
        let mut is_in_list_item: bool = false;
        let mut current_item_text = String::new();
        let mut metadata = ReadmeMetadata::default();
        let mut title_extracted: bool = false;

        let n = events.len();
        let mut idx: usize = 0;
        proof {
            assert(section_views(sections@) =~= Seq::<SectionModel>::empty());
        }
        while idx < n
            invariant
                self.wf(),
                n == evs.len(),
                idx <= n,
                evs == events@,
                ({
                    let st = run_events(evs, idx as int);
                    &&& section_views(sections@) == st.done
                    &&& cur_open == (st.cur is Some)
                    &&& (cur_open ==> Some(cur@) == st.cur && cur.wf())
                    &&& is_in_header == st.in_header
                    &&& current_header_level == st.header_level
                    &&& header_text@ == st.header_text
                    &&& is_in_list_item == st.in_item
                    &&& current_item_text@ == st.item_text
                    &&& link_url@ == st.link_url
                    &&& metadata.title@ == st.title
                    &&& title_extracted == st.title_captured
                }),
                metadata.description@ == "A curated list of awesome resources"@,
                metadata.last_updated is None,
                forall|q: int| 0 <= q < sections@.len() ==> (#[trigger] sections@[q]).wf(),
            decreases n - idx,
        {
            let ghost st = run_events(evs, idx as int);
            proof {
                assert(run_events(evs, idx + 1) == step(st, evs[idx as int]));
            }
            let ev = &events[idx];
            match ev {
                MdEvent::HeadingStart(level) => {
                    is_in_header = true;
                    current_header_level = *level;
                    header_text = String::new();
                },
                MdEvent::HeadingEnd => {
                    if is_in_header {
                        let htv = chars_of(header_text.as_str());
                        let trimmed = trim_chars(&htv);
                        let header = string_of(&trimmed);
                        if !title_extracted && current_header_level == 1 {
                            metadata.title = header.clone();
                            title_extracted = true;
                        }
                        if current_header_level >= 2 && self.should_parse_section(
                            header.as_str(),
                        ) {
                            let prev = cur;
                            cur = Section::new(header);
                            if cur_open {
                                sections.push(prev);
                                proof {
                                    assert(section_views(sections@) =~~= section_views(
                                        sections@.drop_last(),
                                    ).push(prev@));
                                }
                            }
                            cur_open = true;
                        }
                        is_in_header = false;
                    }
                },
                MdEvent::LinkStart(url) => {
                    link_url = url.clone();
                },
                MdEvent::Text(t) => {
                    if is_in_header {
                        header_text.append(t.as_str());
                    } else {
                        if is_in_list_item {
                            current_item_text.append(t.as_str());
                        }
                        if cur_open {
                            cur.raw_content.append(t.as_str());
                        }
                    }
                },
                MdEvent::Code(c) => {
                    if is_in_header {
                        header_text.append(c.as_str());
                    } else {
                        if is_in_list_item {
                            current_item_text.append(c.as_str());
                        }
                        if cur_open {
                            cur.raw_content.append(c.as_str());
                        }
                    }
                },
                MdEvent::ItemStart => {
                    if !is_in_header {
                        is_in_list_item = true;
                        current_item_text = String::new();
                    }
                },
                MdEvent::ItemEnd => {
                    if !is_in_header {
                        if cur_open {
                            crate::text::push_char(&mut cur.raw_content, '\n');
                        }
                        if is_in_list_item && !link_url.as_str().is_empty() && !blank_str(
                            current_item_text.as_str(),
                        ) && cur_open && self.is_github_link(link_url.as_str()) {
                            let entry = self.extract_repository_entry(
                                current_item_text.as_str(),
                                link_url.as_str(),
                            );
                            cur.entries.push(entry);
                            cur.entry_count = cur.entries.len();
                            proof {
                                assert(entry_views(cur.entries@) =~~= entry_views(
                                    cur.entries@.drop_last(),
                                ).push(entry@));
                            }
                        }
                        is_in_list_item = false;
                        current_item_text = String::new();
                        link_url = String::new();
                    }
                },
                MdEvent::LineBreak => {
                    if !is_in_header {
                        if is_in_list_item {
                            crate::text::push_char(&mut current_item_text, '\n');
                        }
                        if cur_open {
                            crate::text::push_char(&mut cur.raw_content, '\n');
                        }
                    }
                },
                MdEvent::Other => {},
            }
            idx = idx + 1;
        }
        let ghost st_final = run_events(evs, n as int);
        if cur_open {
            sections.push(cur);
            proof {
                assert(section_views(sections@) =~~= section_views(sections@.drop_last()).push(
                    sections@.last()@,
                ));
            }
        }
        proof {
            assert(section_views(sections@) == final_sections(st_final));
            lemma_run_count(evs, n as int);
        }
        let ghost secv = section_views(sections@);

        let ns = sections.len();
        let mut total: usize = 0;
        let mut si: usize = 0;
        while si < ns
            invariant
                ns == sections@.len(),
                si <= ns,
                secv == section_views(sections@),
                total_entries_of(secv, 0) <= usize::MAX,
                forall|q: int| 0 <= q < sections@.len() ==> (#[trigger] sections@[q]).wf(),
                total as int == total_entries_of(secv, 0) - total_entries_of(secv, si as int),
            decreases ns - si,
        {
            proof {
                lemma_total_nonneg(secv, si + 1);
            }
            let sec = &sections[si];
            total = total + sec.entry_count;
            si = si + 1;
        }
        metadata.total_entries = total;
        (sections, metadata)
    }

    /// Register every qualifying word of `text` in the index, pointing at
    /// the given section and entry with the given priority.
    pub fn index_text(
        &self,
        text: &str,
        section_idx: usize,
        entry_idx: Option<usize>,
        priority: SearchPriority,
        github_url: Option<&str>,
        search_index: &mut SearchIndex,
    )
        ensures
            final(search_index)@ == index_text_model(
                old(search_index)@,
                text@,
                section_idx as int,
                opt_int(entry_idx),
                priority,
                opt_str_chars(github_url),
            ),
    {
        let tv = chars_of(text);
        let ws = split_words(&tv);
        let text_bytes = text.as_bytes();
        let end: usize = text_bytes.len();
        proof {
            broadcast use vstd::slice::axiom_spec_len;

            crate::text::lemma_byte_len_is_encoding(text@);
            assert(text_bytes@ == vstd::string::StringSliceAdditionalSpecFns::spec_bytes(text));
        }
        let ghost loc = loc_for(
            text@,
            section_idx as int,
            opt_int(entry_idx),
            priority,
            opt_str_chars(github_url),
        );
        let n = ws.len();
        let mut k: usize = 0;
        while k < n
            invariant
                n == ws@.len(),
                k <= n,
                word_views(ws@) == words_of(text@),
                end as int == byte_len_of(text@),
                loc == loc_for(
                    text@,
                    section_idx as int,
                    opt_int(entry_idx),
                    priority,
                    opt_str_chars(github_url),
                ),
                index_words(search_index@, words_of(text@), k as int, loc) == index_text_model(
                    old(search_index)@,
                    text@,
                    section_idx as int,
                    opt_int(entry_idx),
                    priority,
                    opt_str_chars(github_url),
                ),
            decreases n - k,
        {
            let w = &ws[k];
            assert(w@ == words_of(text@)[k as int]);
            if longer_than_two_bytes(w) {
                let filtered = crate::text::filter_keep(w);
                let trimmed = trim_chars(&filtered);
                let trimmed_str = string_of(&trimmed);
                let cleaned_str = lowercase(trimmed_str.as_str());
                let cleaned = chars_of(cleaned_str.as_str());
                assert(cleaned@ == clean_word(w@));
                if cleaned.len() > 0 && longer_than_two_bytes(&cleaned) {
                    let location = SearchLocation {
                        section_index: section_idx,
                        entry_index: entry_idx,
                        line_content: String::from_str(text),
                        start_pos: 0,
                        end_pos: end,
                        search_priority: priority,
                        github_url: match github_url {
                            Some(u) => Some(String::from_str(u)),
                            None => None,
                        },
                    };
                    proof {
                        assert(location@ =~~= loc);
                    }
                    search_index.add_term(cleaned_str, location);
                }
            }
            k = k + 1;
        }
    }

    /// Build the inverted index over every entry of every section: titles
    /// under repository-name priority, then non-empty descriptions under
    /// description priority. Section titles and raw section text stay out
    /// of the index by design.
    pub fn build_search_index(&self, sections: &Vec<Section>) -> (r: SearchIndex)
        ensures
            r@ == index_of(section_views(sections@)),
            index_wf(r@),
    {
        let mut search_index = SearchIndex::default();
        proof {
            assert(search_index@ =~~= IndexModel { buckets: Seq::empty(), total: 0 });
            lemma_index_of_wf(section_views(sections@));
        }
        let ns = sections.len();
        let mut i: usize = 0;
        while i < ns
            invariant
                ns == sections@.len(),
                i <= ns,
                index_sections(search_index@, section_views(sections@), i as int) == index_of(
                    section_views(sections@),
                ),
            decreases ns - i,
        {
            let section = &sections[i];
            let ne = section.entries.len();
            let mut k: usize = 0;
            while k < ne
                invariant
                    ns == sections@.len(),
                    0 <= i < ns,
                    *section == sections@[i as int],
                    ne == section.entries@.len(),
                    k <= ne,
                    index_sections(
                        index_entries(
                            search_index@,
                            entry_views(section.entries@),
                            i as int,
                            k as int,
                        ),
                        section_views(sections@),
                        i + 1,
                    ) == index_of(section_views(sections@)),
                decreases ne - k,
            {
                let entry = &section.entries[k];
                assert(entry@ == entry_views(section.entries@)[k as int]);
                self.index_text(
                    entry.title.as_str(),
                    i,
                    Some(k),
                    SearchPriority::RepositoryName,
                    Some(entry.url.as_str()),
                    &mut search_index,
                );
                if !entry.description.as_str().is_empty() {
                    self.index_text(
                        entry.description.as_str(),
                        i,
                        Some(k),
                        SearchPriority::Description,
                        Some(entry.url.as_str()),
                        &mut search_index,
                    );
                }
                k = k + 1;
            }
            i = i + 1;
        }
        search_index
    }
}

/// Position of the first section whose title mentions themes,
/// case-insensitively, searching from `i` on.
pub open spec fn theme_pos(secs: Seq<SectionModel>, i: int) -> Option<int>
    recommends
        0 <= i <= secs.len(),
    decreases secs.len() - i,
    when 0 <= i <= secs.len()
{
    if i >= secs.len() {
        None
    } else if has_sub(lower_of(secs[i].title), "theme"@) {
        Some(i)
    } else {
        theme_pos(secs, i + 1)
    }
}

/// The (name, url, description) rows taken from a section's entries, from
/// entry `k` on: one row per entry whose URL names a GitHub repository.
pub open spec fn theme_rows(es: Seq<EntryModel>, k: int) -> Seq<(Seq<char>, Seq<char>, Seq<char>)>
    recommends
        0 <= k <= es.len(),
    decreases es.len() - k,
    when 0 <= k <= es.len()
{
    if k >= es.len() {
        Seq::empty()
    } else {
        let rest = theme_rows(es, k + 1);
        if is_github_repo(es[k].url) {
            seq![(es[k].title, es[k].url, es[k].description)] + rest
        } else {
            rest
        }
    }
}

/// The theme rows of a catalog: the GitHub entries of the first section
/// whose title mentions themes; empty when no section does.
pub open spec fn themes_of(secs: Seq<SectionModel>) -> Seq<(Seq<char>, Seq<char>, Seq<char>)> {
    match theme_pos(secs, 0) {
        Some(i) => theme_rows(secs[i].entries, 0),
        None => Seq::empty(),
    }
}

proof fn lemma_theme_pos_skip(secs: Seq<SectionModel>, i: int)
    requires
        0 <= i <= secs.len(),
        forall|k: int| 0 <= k < i ==> !has_sub(lower_of(secs[k].title), "theme"@),
    ensures
        theme_pos(secs, 0) == theme_pos(secs, i),
    decreases i,
{
    if i > 0 {
        lemma_theme_pos_skip(secs, i - 1);
    }
}

impl ReadmeParser {
    /// The theme entries of a catalog: every GitHub entry of the first
    /// section whose title mentions themes. Fails when there is no such
    /// section or it holds no GitHub entry.
    pub fn extract_themes_from_readme(&self, readme: &ReadmeContent) -> (r: Result<
        Vec<ThemeEntry>,
        ThemeError,
    >)
        ensures
            match r {
                Ok(v) => v@.map_values(|t: ThemeEntry| t@) == themes_of(readme@.sections)
                    && themes_of(readme@.sections).len() > 0,
                Err(e) => e == ThemeError::NoThemesFound && themes_of(readme@.sections).len()
                    == 0,
            },
    {
        let ghost secv = section_views(readme.sections@);
        let pat = chars_of("theme");
        let ns = readme.sections.len();
        let mut i: usize = 0;
        while i < ns
            invariant
                ns == readme.sections@.len(),
                i <= ns,
                secv == section_views(readme.sections@),
                pat@ == "theme"@,
                forall|k: int| 0 <= k < i ==> !has_sub(lower_of(secv[k].title), "theme"@),
            decreases ns - i,
        {
            let sec = &readme.sections[i];
            let tl = lowercase(sec.title.as_str());
            let tlc = chars_of(tl.as_str());
            if has_substring(&tlc, &pat) {
                proof {
                    lemma_theme_pos_skip(secv, i as int);
                }
                let ghost esv = entry_views(sec.entries@);
                let mut theme_entries: Vec<ThemeEntry> = Vec::new();
                proof {
                    assert(theme_entries@.map_values(|t: ThemeEntry| t@) =~= Seq::<
                        (Seq<char>, Seq<char>, Seq<char>),
                    >::empty());
                }
                let ne = sec.entries.len();
                let mut k: usize = 0;
                while k < ne
                    invariant
                        ne == sec.entries@.len(),
                        k <= ne,
                        esv == entry_views(sec.entries@),
                        theme_entries@.map_values(|t: ThemeEntry| t@) + theme_rows(
                            esv,
                            k as int,
                        ) == theme_rows(esv, 0),
                    decreases ne - k,
                {
                    let e = &sec.entries[k];
                    if self.is_github_link(e.url.as_str()) {
                        theme_entries.push(
                            ThemeEntry {
                                name: e.title.clone(),
                                url: e.url.clone(),
                                description: e.description.clone(),
                            },
                        );
                        proof {
                            assert(theme_entries@.map_values(|t: ThemeEntry| t@)
                                =~~= theme_entries@.drop_last().map_values(|t: ThemeEntry| t@)
                                + seq![(esv[k as int].title, esv[k as int].url, esv[
                                k as int].description)]);
                            assert(theme_entries@.map_values(|t: ThemeEntry| t@) + theme_rows(
                                esv,
                                k + 1,
                            ) =~~= theme_rows(esv, 0));
                        }
                    }
                    k = k + 1;
                }
                if theme_entries.len() == 0 {
                    return Err(ThemeError::NoThemesFound);
                }
                return Ok(theme_entries);
            }
            i = i + 1;
        }
        proof {
            lemma_theme_pos_skip(secv, ns as int);
        }
        Err(ThemeError::NoThemesFound)
    }
}

/// A hexadecimal digit in either case.
pub open spec fn is_hex_digit(c: char) -> bool {
    ('0' <= c && c <= '9') || ('a' <= c && c <= 'f') || ('A' <= c && c <= 'F')
}

/// A color string normalized for display: trimmed; kept as is when it
/// already starts with a hash; given a leading hash when it is exactly six
/// hexadecimal digits; otherwise returned trimmed and unchanged.
pub open spec fn normalized_color(s: Seq<char>) -> Seq<char> {
    let t = trim_of(s);
    if t.len() > 0 && t[0] == '#' {
        t
    } else if t.len() == 6 && (forall|i: int| 0 <= i < t.len() ==> is_hex_digit(#[trigger] t[i])) {
        seq!['#'] + t
    } else {
        t
    }
}

/// What formatting a theme name yields, scanning from position `i`:
/// dashes become spaces, and the first character of each dash-separated
/// segment is uppercased (`at_start` says whether one is due).
pub open spec fn formatted_from(s: Seq<char>, i: int, at_start: bool) -> Seq<char>
    recommends
        0 <= i <= s.len(),
    decreases s.len() - i,
    when 0 <= i <= s.len()
{
    if i >= s.len() {
        Seq::empty()
    } else if s[i] == '-' {
        seq![' '] + formatted_from(s, i + 1, true)
    } else {
        (if at_start {
            crate::text::upper_of(s[i])
        } else {
            seq![s[i]]
        }) + formatted_from(s, i + 1, false)
    }
}

/// A theme's display name: its raw name with dashes turned into spaces and
/// each dash-separated segment's first character uppercased.
pub open spec fn formatted_name(s: Seq<char>) -> Seq<char> {
    formatted_from(s, 0, true)
}

/// Parser for terminal theme color files.
pub struct ThemeParser;

impl ThemeParser {
    pub fn new() -> (r: Self) {
        ThemeParser
    }

    /// Whether `c` is a hexadecimal digit.
    fn hex_digit(c: char) -> (r: bool)
        ensures
            r == is_hex_digit(c),
    {
        ('0' <= c && c <= '9') || ('a' <= c && c <= 'f') || ('A' <= c && c <= 'F')
    }

    /// Normalize a color string for display.
    pub fn normalize_color(&self, color: &str) -> (r: String)
        ensures
            r@ == normalized_color(color@),
    {
        let cv = chars_of(color);
        let t = trim_chars(&cv);
        if t.len() > 0 && t[0] == '#' {
            return string_of(&t);
        }
        if t.len() == 6 {
            let mut all_hex = true;
            let mut i: usize = 0;
            while i < t.len()
                invariant
                    i <= t@.len(),
                    all_hex ==> forall|k: int| 0 <= k < i ==> is_hex_digit(#[trigger] t@[k]),
                    !all_hex ==> !(forall|k: int|
                        0 <= k < t@.len() ==> is_hex_digit(#[trigger] t@[k])),
                decreases t@.len() - i,
            {
                if !Self::hex_digit(t[i]) {
                    all_hex = false;
                }
                i = i + 1;
            }
            if all_hex {
                let mut r = String::from_str("#");
                r.append(string_of(&t).as_str());
                proof {
                    reveal_strlit("#");
                    assert(r@ =~= seq!['#'] + t@);
                }
                return r;
            }
        }
        string_of(&t)
    }

    /// Format a theme name for display.
    pub fn format_theme_name(&self, name: &str) -> (r: String)
        ensures
            r@ == formatted_name(name@),
    {
        let nv = chars_of(name);
        let mut r = String::new();
        let mut at_start = true;
        let n = nv.len();
        let mut i: usize = 0;
        while i < n
            invariant
                n == nv@.len(),
                i <= n,
                nv@ == name@,
                r@ + formatted_from(name@, i as int, at_start) == formatted_name(name@),
            decreases n - i,
        {
            let c = nv[i];
            if c == '-' {
                crate::text::push_char(&mut r, ' ');
                at_start = true;
            } else if at_start {
                let up = crate::text::char_upper(c);
                r.append(up.as_str());
                at_start = false;
            } else {
                crate::text::push_char(&mut r, c);
                at_start = false;
            }
            i = i + 1;
        }
        r
    }

    /// The default palette of normal terminal colors.
    pub fn create_default_palette(&self) -> (r: ThemeColorPalette)
        ensures
            r.black@ == "#32344a"@,
            r.red@ == "#f7768e"@,
            r.green@ == "#9ece6a"@,
            r.yellow@ == "#e0af68"@,
            r.blue@ == "#7aa2f7"@,
            r.magenta@ == "#ad8ee6"@,
            r.cyan@ == "#449dab"@,
            r.white@ == "#787c99"@,
    {
        ThemeColorPalette {
            black: String::from_str("#32344a"),
            red: String::from_str("#f7768e"),
            green: String::from_str("#9ece6a"),
            yellow: String::from_str("#e0af68"),
            blue: String::from_str("#7aa2f7"),
            magenta: String::from_str("#ad8ee6"),
            cyan: String::from_str("#449dab"),
            white: String::from_str("#787c99"),
        }
    }

    /// The default palette of bright terminal colors.
    pub fn create_default_bright_palette(&self) -> (r: ThemeColorPalette)
        ensures
            r.black@ == "#444b6a"@,
            r.red@ == "#ff7a93"@,
            r.green@ == "#b9f27c"@,
            r.yellow@ == "#ff9e64"@,
            r.blue@ == "#7da6ff"@,
            r.magenta@ == "#bb9af7"@,
            r.cyan@ == "#0db9d7"@,
            r.white@ == "#acb0d0"@,
    {
        ThemeColorPalette {
            black: String::from_str("#444b6a"),
            red: String::from_str("#ff7a93"),
            green: String::from_str("#b9f27c"),
            yellow: String::from_str("#ff9e64"),
            blue: String::from_str("#7da6ff"),
            magenta: String::from_str("#bb9af7"),
            cyan: String::from_str("#0db9d7"),
            white: String::from_str("#acb0d0"),
        }
    }
}

impl Default for ThemeParser {
    fn default() -> Self {
        ThemeParser::new()
    }
}

} // verus!
