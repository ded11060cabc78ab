//! Tests of the catalog extractor: empty input, basic structure, entry
//! splitting, the section filter and the GitHub-repository filter.

use awesome_omarchy::{MdEvent, ParseError, ReadmeParser, ThemeError};

#[test]
fn test_parse_empty_content() {
    let parser = ReadmeParser::new();
    let result = parser.parse("");
    assert!(result.is_err());
}

#[test]
fn test_parse_basic_structure() {
    let parser = ReadmeParser::new();
    let markdown = r#"
# Awesome Omarchy

## Official Resources

- [Official Website](https://github.com/omarchy/awesome) - The main project website
- [Documentation](https://github.com/omarchy/docs) - Comprehensive documentation

## Development Tools

- [CLI Tool](https://github.com/omarchy/cli) - Command line interface for Omarchy
"#;

    let result = parser.parse(markdown).unwrap();
    assert_eq!(result.metadata.title, "Awesome Omarchy");
    assert_eq!(result.sections.len(), 2);
    assert_eq!(result.sections[0].title, "Official Resources");
    assert_eq!(result.sections[0].entries.len(), 2);
    assert_eq!(result.sections[1].title, "Development Tools");
    assert_eq!(result.sections[1].entries.len(), 1);
}

#[test]
fn test_extract_repository_entry() {
    let parser = ReadmeParser::new();
    let text = "Awesome Tool - A comprehensive tool for doing awesome things";
    let url = "https://github.com/user/awesome-tool";

    let entry = parser.extract_repository_entry(text, url);
    assert_eq!(entry.title, "Awesome Tool");
    assert_eq!(
        entry.description,
        "A comprehensive tool for doing awesome things"
    );
    assert_eq!(entry.url, url);
}

#[test]
fn test_search_functionality() {
    let parser = ReadmeParser::new();
    let markdown = r#"
# Test Awesome List

## Tools

- [Rust CLI](https://github.com/user/rust-cli) - A command line tool written in Rust
- [Python Script](https://github.com/user/python-script) - A useful Python script

## Libraries

- [Web Framework](https://github.com/user/web-framework) - Fast web framework
"#;

    let result = parser.parse(markdown).unwrap();
    let search_results = result.search_index.search("rust");
    assert!(!search_results.is_empty());

    let search_results = result.search_index.search("web");
    assert!(!search_results.is_empty());
}

#[test]
fn empty_input_is_reported() {
    let parser = ReadmeParser::new();
    assert_eq!(parser.parse(""), Err(ParseError::EmptyInput));
    assert_eq!(parser.parse("   "), Err(ParseError::EmptyInput));
    assert_eq!(parser.parse(" \t\n "), Err(ParseError::EmptyInput));
}

#[test]
fn no_sections_is_reported() {
    let parser = ReadmeParser::new();
    // Plain prose with no heading yields no section.
    assert_eq!(
        parser.parse("just a paragraph of text"),
        Err(ParseError::NoSectionsFound)
    );
    // A document whose only headings are excluded yields no section either.
    let markdown = "# Top\n\n## License\n\n- [x](https://github.com/a/b) - c\n";
    assert_eq!(parser.parse(markdown), Err(ParseError::NoSectionsFound));
}

#[test]
fn split_title_description_variants() {
    let parser = ReadmeParser::new();
    let (title, description) =
        parser.split_title_description("Awesome Tool - A comprehensive tool for doing awesome things");
    assert_eq!(title, "Awesome Tool");
    assert_eq!(description, "A comprehensive tool for doing awesome things");

    let (title, description) = parser.split_title_description("Name: the description");
    assert_eq!(title, "Name");
    assert_eq!(description, "the description");

    let (title, description) = parser.split_title_description("  Just a title  ");
    assert_eq!(title, "Just a title");
    assert_eq!(description, "");

    // The first " - " wins over a later one and over ": ".
    let (title, description) = parser.split_title_description("a - b - c: d");
    assert_eq!(title, "a");
    assert_eq!(description, "b - c: d");
}

#[test]
fn github_link_filter() {
    let parser = ReadmeParser::new();
    assert!(parser.is_github_link("https://github.com/user/repo"));
    assert!(!parser.is_github_link("https://github.com/user/repo/issues/3"));
    assert!(!parser.is_github_link("https://github.com/user/repo/wiki"));
    assert!(!parser.is_github_link("https://github.com/user/repo/releases"));
    // Too few path segments: only three slashes.
    assert!(!parser.is_github_link("https://github.com/user"));
    assert!(!parser.is_github_link("https://example.com/user/repo/x"));
    assert!(!parser.is_github_link(""));
}

#[test]
fn section_filter_defaults_to_inclusive() {
    let parser = ReadmeParser::new();
    assert!(parser.should_parse_section("Tools"));
    assert!(parser.should_parse_section("Anything At All"));
    assert!(!parser.should_parse_section("Table of Contents"));
    assert!(!parser.should_parse_section("contents"));
    assert!(!parser.should_parse_section("Contributing"));
    assert!(!parser.should_parse_section("License"));
    assert!(!parser.should_parse_section("My Awesome Heading"));
    assert!(!parser.should_parse_section("Badges"));
}

#[test]
fn tags_follow_table_order_with_duplicates() {
    let parser = ReadmeParser::new();
    let tags = parser.extract_tags("A Rust CLI web tool");
    assert_eq!(tags, vec!["rust", "command-line", "web", "tool"]);

    // "javascript" also contains "java": both indicators fire.
    let tags = parser.extract_tags("Written in JavaScript");
    assert_eq!(tags, vec!["javascript", "java"]);

    let tags = parser.extract_tags("");
    assert!(tags.is_empty());
}

#[test]
fn last_link_wins_inside_one_item() {
    let parser = ReadmeParser::new();
    let markdown =
        "# T\n\n## Tools\n\n- [A](https://example.com/x) and [B](https://github.com/u/r) - d\n";
    let result = parser.parse(markdown).unwrap();
    assert_eq!(result.sections.len(), 1);
    assert_eq!(result.sections[0].entries.len(), 1);
    assert_eq!(result.sections[0].entries[0].url, "https://github.com/u/r");
}

#[test]
fn non_github_items_are_silently_skipped() {
    let parser = ReadmeParser::new();
    let markdown = "# T\n\n## Tools\n\n- [A](https://example.com/thing) - not a repository\n";
    let result = parser.parse(markdown).unwrap();
    assert_eq!(result.sections.len(), 1);
    assert_eq!(result.sections[0].entries.len(), 0);
    assert_eq!(result.sections[0].entry_count, 0);
    assert_eq!(result.metadata.total_entries, 0);
    // The item's text still reaches the section's raw text.
    assert!(result.sections[0].raw_content.contains("not a repository"));
}

#[test]
fn counts_are_consistent() {
    let parser = ReadmeParser::new();
    let markdown = r#"
# List

## Tools

- [A](https://github.com/u/a) - first
- [B](https://github.com/u/b) - second

## Things

- [C](https://github.com/u/c) - third
"#;
    let result = parser.parse(markdown).unwrap();
    let mut sum = 0;
    for section in &result.sections {
        assert_eq!(section.entry_count, section.entries.len());
        sum += section.entry_count;
    }
    assert_eq!(result.metadata.total_entries, sum);
    assert_eq!(sum, 3);
}

#[test]
fn first_level_one_heading_becomes_title() {
    let parser = ReadmeParser::new();
    let markdown = "# First Title\n\n# Second Title\n\n## Tools\n\ntext\n";
    let result = parser.parse(markdown).unwrap();
    assert_eq!(result.metadata.title, "First Title");
    // The default metadata fields survive extraction.
    assert_eq!(result.metadata.description, "A curated list of awesome resources");
    assert_eq!(result.metadata.last_updated, None);
}

#[test]
fn themes_are_taken_from_the_themes_section() {
    let parser = ReadmeParser::new();
    let markdown = r#"
# List

## Tools

- [A](https://github.com/u/a) - first

## Themes

- [Tokyo Night](https://github.com/u/tokyo) - dark theme
- [Not Github](https://example.com/t) - skipped
"#;
    let result = parser.parse(markdown).unwrap();
    let themes = parser.extract_themes_from_readme(&result).unwrap();
    assert_eq!(themes.len(), 1);
    assert_eq!(themes[0].name, "Tokyo Night");
    assert_eq!(themes[0].url, "https://github.com/u/tokyo");
    assert_eq!(themes[0].description, "dark theme");

    let bare = parser.parse("# T\n\n## Tools\n\n- [A](https://github.com/u/a) - x\n").unwrap();
    assert_eq!(
        parser.extract_themes_from_readme(&bare),
        Err(ThemeError::NoThemesFound)
    );
}

#[test]
fn extractor_runs_on_synthetic_events() {
    let parser = ReadmeParser::new();
    let events = vec![
        MdEvent::HeadingStart(1),
        MdEvent::Text("My List".to_string()),
        MdEvent::HeadingEnd,
        MdEvent::HeadingStart(2),
        MdEvent::Text("Tools".to_string()),
        MdEvent::HeadingEnd,
        MdEvent::ItemStart,
        MdEvent::LinkStart("https://github.com/u/r".to_string()),
        MdEvent::Text("Tool - does things".to_string()),
        MdEvent::ItemEnd,
        MdEvent::Other,
    ];
    let (sections, metadata) = parser.extract(&events);
    assert_eq!(metadata.title, "My List");
    assert_eq!(metadata.total_entries, 1);
    assert_eq!(sections.len(), 1);
    assert_eq!(sections[0].title, "Tools");
    assert_eq!(sections[0].entries.len(), 1);
    assert_eq!(sections[0].entries[0].title, "Tool");
    assert_eq!(sections[0].entries[0].description, "does things");
    assert_eq!(sections[0].entries[0].url, "https://github.com/u/r");
}

#[test]
fn extractor_resets_item_state_between_items() {
    let parser = ReadmeParser::new();
    // The first item captures a link but the second has none: the captured
    // URL does not leak into the next item.
    let events = vec![
        MdEvent::HeadingStart(2),
        MdEvent::Text("Tools".to_string()),
        MdEvent::HeadingEnd,
        MdEvent::ItemStart,
        MdEvent::LinkStart("https://github.com/u/a".to_string()),
        MdEvent::Text("A - first".to_string()),
        MdEvent::ItemEnd,
        MdEvent::ItemStart,
        MdEvent::Text("B - no link".to_string()),
        MdEvent::ItemEnd,
    ];
    let (sections, metadata) = parser.extract(&events);
    assert_eq!(sections.len(), 1);
    assert_eq!(sections[0].entries.len(), 1);
    assert_eq!(sections[0].entries[0].title, "A");
    assert_eq!(metadata.total_entries, 1);
}
