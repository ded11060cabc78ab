//! Tests of the inverted index and the query engine: scoring, ranking,
//! aggregation, display preference and raw-content exclusion.

use awesome_omarchy::{
    calculate_relevance_score, ReadmeParser, SearchIndex, SearchLocation, SearchPriority,
};

fn location(section: usize, entry: usize, line: &str, priority: SearchPriority) -> SearchLocation {
    SearchLocation {
        section_index: section,
        entry_index: Some(entry),
        line_content: line.to_string(),
        start_pos: 0,
        end_pos: line.len(),
        search_priority: priority,
        github_url: Some("https://github.com/u/r".to_string()),
    }
}

#[test]
fn relevance_score_classes() {
    // Exact, prefix, suffix and contains matches, in tenths.
    assert_eq!(calculate_relevance_score("rust", "rust"), 10);
    assert_eq!(calculate_relevance_score("rustic", "rust"), 8);
    assert_eq!(calculate_relevance_score("antirust", "rust"), 6);
    assert_eq!(calculate_relevance_score("crusty", "rust"), 4);
}

#[test]
fn multipliers_in_tenths() {
    assert_eq!(SearchPriority::RepositoryName.score_multiplier(), 20);
    assert_eq!(SearchPriority::Description.score_multiplier(), 15);
    assert_eq!(SearchPriority::RawContent.score_multiplier(), 1);
}

#[test]
fn add_term_lowercases_and_groups() {
    let mut index = SearchIndex::default();
    index.add_term("Rust".to_string(), location(0, 0, "Rust", SearchPriority::RepositoryName));
    index.add_term("RUST".to_string(), location(0, 1, "RUST", SearchPriority::RepositoryName));
    index.add_term("web".to_string(), location(1, 0, "web", SearchPriority::Description));
    assert_eq!(index.terms.len(), 2);
    assert_eq!(index.terms[0].term, "rust");
    assert_eq!(index.terms[0].locations.len(), 2);
    assert_eq!(index.terms[1].term, "web");
    assert_eq!(index.total_terms, 3);
}

#[test]
fn exact_name_match_scores_two_hundred() {
    let parser = ReadmeParser::new();
    let markdown = "# T\n\n## Tools\n\n- [Rust CLI](https://github.com/user/rust-cli) - A command line tool written in Rust\n";
    let result = parser.parse(markdown).unwrap();

    let hits = result.search_index.search("rust");
    // One entry, hence one aggregated result, at exact-name quality.
    assert_eq!(hits.len(), 1);
    assert_eq!(hits[0].relevance_score, 200);
    assert_eq!(hits[0].section_index, 0);
    assert_eq!(hits[0].entry_index, Some(0));
    // Repository-name text is preferred for display.
    assert_eq!(hits[0].line_content, "Rust CLI");
    assert_eq!(hits[0].github_url.as_deref(), Some("https://github.com/user/rust-cli"));

    assert!(result.search_index.search("zzz-nomatch").is_empty());
}

#[test]
fn empty_query_returns_nothing() {
    let parser = ReadmeParser::new();
    let markdown = "# T\n\n## Tools\n\n- [Rust CLI](https://github.com/u/r) - tool\n";
    let result = parser.parse(markdown).unwrap();
    assert!(result.search_index.search("").is_empty());
}

#[test]
fn query_is_lowercased() {
    let parser = ReadmeParser::new();
    let markdown = "# T\n\n## Tools\n\n- [RUST CLI](https://github.com/u/r) - a tool\n";
    let result = parser.parse(markdown).unwrap();
    let hits = result.search_index.search("Rust");
    assert_eq!(hits.len(), 1);
    // The stored term is the lowercased "rust"; the lowercased query
    // matches it exactly.
    assert_eq!(hits[0].relevance_score, 200);
}

#[test]
fn punctuation_is_stripped_from_terms() {
    let parser = ReadmeParser::new();
    let markdown = "# T\n\n## Tools\n\n- [(Rust!)](https://github.com/u/r) - a tool\n";
    let result = parser.parse(markdown).unwrap();
    let hits = result.search_index.search("rust");
    assert_eq!(hits.len(), 1);
    // "(Rust!)" cleans to the term "rust": an exact match, not a mere
    // contains-match.
    assert_eq!(hits[0].relevance_score, 200);
}

#[test]
fn raw_content_locations_never_surface() {
    let mut index = SearchIndex::default();
    index.add_term(
        "hidden".to_string(),
        location(0, 0, "hidden raw text", SearchPriority::RawContent),
    );
    assert!(index.search("hidden").is_empty());

    // A mixed bucket only surfaces its non-raw locations.
    index.add_term(
        "hidden".to_string(),
        location(2, 3, "hidden title", SearchPriority::RepositoryName),
    );
    let hits = index.search("hidden");
    assert_eq!(hits.len(), 1);
    assert_eq!(hits[0].section_index, 2);
    assert_eq!(hits[0].relevance_score, 200);
}

#[test]
fn results_are_ranked_and_deduplicated() {
    let parser = ReadmeParser::new();
    let markdown = r#"
# T

## Tools

- [rusty](https://github.com/u/a) - something
- [rust](https://github.com/u/b) - something

## Libraries

- [rust](https://github.com/u/c) - something
"#;
    let result = parser.parse(markdown).unwrap();
    let hits = result.search_index.search("rust");
    assert_eq!(hits.len(), 3);
    // Exact matches (200) come before the prefix match (160); the two
    // exact matches tie and fall back to ascending (section, entry).
    assert_eq!(hits[0].relevance_score, 200);
    assert_eq!((hits[0].section_index, hits[0].entry_index), (0, Some(1)));
    assert_eq!(hits[1].relevance_score, 200);
    assert_eq!((hits[1].section_index, hits[1].entry_index), (1, Some(0)));
    assert_eq!(hits[2].relevance_score, 160);
    assert_eq!((hits[2].section_index, hits[2].entry_index), (0, Some(0)));
}

#[test]
fn name_outranks_description_for_same_term() {
    let parser = ReadmeParser::new();
    let markdown = r#"
# T

## Tools

- [other thing](https://github.com/u/a) - rust support
- [rust](https://github.com/u/b) - some tool
"#;
    let result = parser.parse(markdown).unwrap();
    let hits = result.search_index.search("rust");
    assert_eq!(hits.len(), 2);
    // Exact title match: 10 * 20 = 200; exact description match: 10 * 15 = 150.
    assert_eq!((hits[0].section_index, hits[0].entry_index), (0, Some(1)));
    assert_eq!(hits[0].relevance_score, 200);
    assert_eq!((hits[1].section_index, hits[1].entry_index), (0, Some(0)));
    assert_eq!(hits[1].relevance_score, 150);
}

#[test]
fn repository_name_text_preferred_for_display() {
    let mut index = SearchIndex::default();
    index.add_term(
        "alpha".to_string(),
        location(0, 0, "description text", SearchPriority::Description),
    );
    index.add_term(
        "alpha".to_string(),
        location(0, 0, "Title Text", SearchPriority::RepositoryName),
    );
    let hits = index.search("alpha");
    assert_eq!(hits.len(), 1);
    // The later repository-name location overwrites the display line and
    // raises the score.
    assert_eq!(hits[0].line_content, "Title Text");
    assert_eq!(hits[0].relevance_score, 200);
}

#[test]
fn short_words_are_not_indexed() {
    let parser = ReadmeParser::new();
    let markdown = "# T\n\n## Tools\n\n- [Go on](https://github.com/u/r) - it is ok\n";
    let result = parser.parse(markdown).unwrap();
    // Every word of title and description is at most two characters.
    assert_eq!(result.search_index.total_terms, 0);
    assert!(result.search_index.search("go").is_empty());
}
