//! Data model of the catalog: sections of repository entries extracted
//! from one markdown document, document metadata, and the small state
//! types a terminal front end keeps while displaying a catalog.

use vstd::prelude::*;

use crate::search::{IndexModel, SearchIndex, index_wf};
use vstd::string::StringExecFns;

verus! {

/// Mathematical view of a `RepositoryEntry`.
#[verifier::ext_equal]
pub ghost struct EntryModel {
    pub title: Seq<char>,
    pub url: Seq<char>,
    pub description: Seq<char>,
    pub tags: Seq<Seq<char>>,
}

/// Mathematical view of a `Section`.
#[verifier::ext_equal]
pub ghost struct SectionModel {
    pub title: Seq<char>,
    pub entries: Seq<EntryModel>,
    pub raw: Seq<char>,
}

/// Mathematical view of `ReadmeMetadata`.
#[verifier::ext_equal]
pub ghost struct MetadataModel {
    pub title: Seq<char>,
    pub description: Seq<char>,
    pub last_updated: Option<Seq<char>>,
    pub total: int,
}

/// Mathematical view of a `ReadmeContent` catalog.
#[verifier::ext_equal]
pub ghost struct CatalogModel {
    pub sections: Seq<SectionModel>,
    pub index: IndexModel,
    pub metadata: MetadataModel,
}

/// One extracted GitHub-link list item: its display title, the captured
/// repository URL, the derived description, and extracted tags.
#[derive(Debug, Clone, PartialEq)]
pub struct RepositoryEntry {
    pub title: String,
    pub url: String,
    pub description: String,
    pub tags: Vec<String>,
}

/// The views of a sequence of strings.
pub open spec fn str_views(ts: Seq<String>) -> Seq<Seq<char>> {
    ts.map_values(|t: String| t@)
}

impl View for RepositoryEntry {
    type V = EntryModel;

    open spec fn view(&self) -> EntryModel {
        EntryModel {
            title: self.title@,
            url: self.url@,
            description: self.description@,
            tags: str_views(self.tags@),
        }
    }
}

pub open spec fn entry_views(es: Seq<RepositoryEntry>) -> Seq<EntryModel> {
    es.map_values(|e: RepositoryEntry| e@)
}

/// One catalog category: a heading, the entries extracted under it, the
/// raw inline text seen while it was open, and a count of its entries.
#[derive(Debug, Clone, PartialEq)]
pub struct Section {
    pub title: String,
    pub entries: Vec<RepositoryEntry>,
    pub raw_content: String,
    pub entry_count: usize,
}

impl View for Section {
    type V = SectionModel;

    open spec fn view(&self) -> SectionModel {
        SectionModel {
            title: self.title@,
            entries: entry_views(self.entries@),
            raw: self.raw_content@,
        }
    }
}

impl Section {
    /// The stored count always equals the number of entries.
    pub open spec fn wf(&self) -> bool {
        self.entry_count as int == self.entries@.len()
    }

    /// A new, empty section with the given title.
    pub fn new(title: String) -> (r: Section)
        ensures
            r@.title == title@,
            r@.entries.len() == 0,
            r@.raw.len() == 0,
            r.entry_count == 0,
            r.wf(),
    {
        let r = Section {
            title,
            entries: Vec::new(),
            raw_content: String::new(),
            entry_count: 0,
        };
        proof {
            assert(r@.entries =~= Seq::<EntryModel>::empty());
        }
        r
    }
}

pub open spec fn section_views(ss: Seq<Section>) -> Seq<SectionModel> {
    ss.map_values(|s: Section| s@)
}

/// Document-level metadata of a catalog.
#[derive(Debug, Clone, PartialEq)]
pub struct ReadmeMetadata {
    pub title: String,
    pub description: String,
    pub last_updated: Option<String>,
    pub total_entries: usize,
}

impl View for ReadmeMetadata {
    type V = MetadataModel;

    open spec fn view(&self) -> MetadataModel {
        MetadataModel {
            title: self.title@,
            description: self.description@,
            last_updated: crate::search::opt_chars(self.last_updated),
            total: self.total_entries as int,
        }
    }
}

impl Default for ReadmeMetadata {
    /// The metadata of a document before anything was extracted from it.
    fn default() -> (r: Self)
        ensures
            r@.title == "Awesome Omarchy"@,
            r@.description == "A curated list of awesome resources"@,
            r@.last_updated is None,
            r@.total == 0,
    {
        ReadmeMetadata {
            title: String::from_str("Awesome Omarchy"),
            description: String::from_str("A curated list of awesome resources"),
            last_updated: None,
            total_entries: 0,
        }
    }
}

/// Sum of the entry counts of the sections from `i` on.
pub open spec fn total_entries_of(ss: Seq<SectionModel>, i: int) -> int
    recommends
        0 <= i <= ss.len(),
    decreases ss.len() - i,
    when 0 <= i <= ss.len()
{
    if i >= ss.len() {
        0
    } else {
        ss[i].entries.len() + total_entries_of(ss, i + 1)
    }
}

/// The full structured result of parsing one markdown document.
#[derive(Debug, Clone, PartialEq)]
pub struct ReadmeContent {
    pub sections: Vec<Section>,
    pub search_index: SearchIndex,
    pub metadata: ReadmeMetadata,
}

impl View for ReadmeContent {
    type V = CatalogModel;

    open spec fn view(&self) -> CatalogModel {
        CatalogModel {
            sections: section_views(self.sections@),
            index: self.search_index@,
            metadata: self.metadata@,
        }
    }
}

impl ReadmeContent {
    /// The catalog invariant: every section's count equals its number of
    /// entries, the metadata total is the sum of those counts, and the
    /// index maps each term to at most one bucket.
    pub open spec fn wf(&self) -> bool {
        &&& forall|i: int| 0 <= i < self.sections@.len() ==> (#[trigger] self.sections@[i]).wf()
        &&& self.metadata.total_entries as int == total_entries_of(section_views(self.sections@), 0)
        &&& index_wf(self.search_index@)
    }
}

impl ReadmeContent {
    /// Ranked search results for `query` over this catalog's index.
    pub fn search(&self, query: &str) -> (results: Vec<crate::search::SearchResult>)
        ensures
            crate::search::result_views(results@) == crate::search::search_model(
                self.search_index@,
                query@,
            ),
            crate::search::sorted_res(crate::search::result_views(results@)),
            crate::search::keys_distinct(crate::search::result_views(results@)),
    {
        self.search_index.search(query)
    }
}

impl Default for ReadmeContent {
    /// An empty catalog.
    fn default() -> (r: Self)
        ensures
            r@.sections.len() == 0,
            r@.index.buckets.len() == 0,
            r@.index.total == 0,
            r@.metadata.title == "Awesome Omarchy"@,
            r@.metadata.description == "A curated list of awesome resources"@,
            r@.metadata.last_updated is None,
            r@.metadata.total == 0,
            r.wf(),
    {
        let r = ReadmeContent {
            sections: Vec::new(),
            search_index: SearchIndex::default(),
            metadata: ReadmeMetadata::default(),
        };
        proof {
            assert(section_views(r.sections@) =~= Seq::<SectionModel>::empty());
        }
        r
    }
}

/// Why a parse returned no catalog.
#[derive(Debug, Clone, Copy, PartialEq, Eq, Structural)]
pub enum ParseError {
    /// The markdown input was empty or all whitespace.
    EmptyInput,
    /// Extraction finished without producing a single section.
    NoSectionsFound,
}

/// Why no theme entries could be taken from a catalog.
#[derive(Debug, Clone, Copy, PartialEq, Eq, Structural)]
pub enum ThemeError {
    /// No section mentioning themes held a single GitHub entry.
    NoThemesFound,
}

/// Which pane of the front end holds focus.
#[derive(Debug, Clone, PartialEq, Eq, Structural)]
pub enum FocusArea {
    Sidebar,
    Content,
}

impl Default for FocusArea {
    fn default() -> (r: Self)
        ensures
            r == FocusArea::Content,
    {
        FocusArea::Content
    }
}

/// Lifecycle of the front end's catalog data.
#[derive(Debug, Clone, PartialEq)]
pub enum AppState {
    Loading,
    Ready,
    Error(String),
}

impl AppState {
    /// Whether the catalog is still being loaded.
    pub fn is_loading(&self) -> (r: bool)
        ensures
            r == (self is Loading),
    {
        match self {
            AppState::Loading => true,
            _ => false,
        }
    }
}

/// One theme row taken from a catalog's themes section.
#[derive(Debug, Clone, PartialEq)]
pub struct ThemeEntry {
    pub name: String,
    pub url: String,
    pub description: String,
}

impl View for ThemeEntry {
    type V = (Seq<char>, Seq<char>, Seq<char>);

    open spec fn view(&self) -> (Seq<char>, Seq<char>, Seq<char>) {
        (self.name@, self.url@, self.description@)
    }
}

/// Cursor state of one scrollable list.
#[derive(Debug, Clone, PartialEq)]
pub struct ListState {
    pub selected_index: Option<usize>,
    pub offset: usize,
}

impl Default for ListState {
    fn default() -> (r: Self)
        ensures
            r.selected_index == Some(0usize),
            r.offset == 0,
    {
        ListState::new()
    }
}

impl ListState {
    /// A list with the first item selected and no scroll offset.
    pub fn new() -> (r: Self)
        ensures
            r.selected_index == Some(0usize),
            r.offset == 0,
    {
        ListState { selected_index: Some(0), offset: 0 }
    }

    /// Select `index`; the offset is pulled up so the selection stays in view.
    pub fn select(&mut self, index: Option<usize>)
        ensures
            final(self).selected_index == index,
            final(self).offset == (match index {
                Some(i) => if i < old(self).offset {
                    i
                } else {
                    old(self).offset
                },
                None => old(self).offset,
            }),
    {
        self.selected_index = index;
        if let Some(idx) = index {
            if idx < self.offset {
                self.offset = idx;
            }
        }
    }

    /// Select the first item and reset the offset.
    pub fn select_first(&mut self)
        ensures
            final(self).selected_index == Some(0usize),
            final(self).offset == 0,
    {
        self.selected_index = Some(0);
        self.offset = 0;
    }

    /// Move the selection up by one, wrapping to the last of `max_items`;
    /// an empty list deselects.
    pub fn select_previous(&mut self, max_items: usize)
        ensures
            max_items == 0 ==> final(self).selected_index is None && final(self).offset == old(
                self,
            ).offset,
            max_items > 0 ==> {
                let i = match old(self).selected_index {
                    Some(i) => if i > 0 {
                        (i - 1) as usize
                    } else {
                        (max_items - 1) as usize
                    },
                    None => 0usize,
                };
                final(self).selected_index == Some(i) && final(self).offset == (if i < old(
                    self,
                ).offset {
                    i
                } else {
                    old(self).offset
                })
            },
    {
        if max_items == 0 {
            self.selected_index = None;
            return ;
        }
        let i = match self.selected_index {
            Some(i) => if i > 0 {
                i - 1
            } else {
                max_items - 1
            },
            None => 0,
        };
        self.selected_index = Some(i);
        if i < self.offset {
            self.offset = i;
        }
    }

    /// Move the selection down by one, wrapping to the first of
    /// `max_items`; the offset follows a ten-item viewport.
    pub fn select_next(&mut self, max_items: usize)
        ensures
            max_items == 0 ==> final(self).selected_index is None && final(self).offset == old(
                self,
            ).offset,
            max_items > 0 ==> {
                let i = match old(self).selected_index {
                    Some(i) => if i >= max_items - 1 {
                        0usize
                    } else {
                        (i + 1) as usize
                    },
                    None => 0usize,
                };
                final(self).selected_index == Some(i) && final(self).offset == (if i >= old(
                    self,
                ).offset + 10 {
                    (i - 9) as usize
                } else if i < old(self).offset {
                    i
                } else {
                    old(self).offset
                })
            },
    {
        if max_items == 0 {
            self.selected_index = None;
            return ;
        }
        let i = match self.selected_index {
            Some(i) => if i >= max_items - 1 {
                0
            } else {
                i + 1
            },
            None => 0,
        };
        self.selected_index = Some(i);
        if i >= self.offset && i - self.offset >= 10 {
            self.offset = i - 9;
        } else if i < self.offset {
            self.offset = i;
        }
    }
}

/// The eight named terminal colors of one palette, as hex color strings.
#[derive(Debug, Clone, PartialEq)]
pub struct ThemeColorPalette {
    pub black: String,
    pub red: String,
    pub green: String,
    pub yellow: String,
    pub blue: String,
    pub magenta: String,
    pub cyan: String,
    pub white: String,
}

/// Display state of one section tab.
#[derive(Debug, Clone, PartialEq)]
pub struct TabState {
    pub title: String,
    pub section_index: usize,
    pub scroll_offset: usize,
    pub selected: bool,
    pub list_state: ListState,
}

} // verus!
