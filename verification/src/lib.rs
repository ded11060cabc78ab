//! Catalog extraction and search for curated "awesome list" markdown
//! documents: a markdown-event state machine that builds a structured
//! catalog of categorized repository links, and an inverted search index
//! with weighted, ranked query results.

pub mod codec;
pub mod display;
pub mod models;
pub mod parser;
pub mod search;
pub mod text;
pub mod tokens;

pub use codec::{decode_catalog, encode_catalog};
pub use display::{format_github_url, format_markdown_text};
pub use parser::{ReadmeParser, ThemeParser};
pub use tokens::MdEvent;
pub use models::{
    AppState, FocusArea, ListState, ParseError, ReadmeContent, ReadmeMetadata, RepositoryEntry,
    Section, TabState, ThemeColorPalette, ThemeEntry, ThemeError,
};
pub use search::{
    SearchIndex, SearchLocation, SearchPriority, SearchResult, TermEntry,
    calculate_relevance_score,
};
