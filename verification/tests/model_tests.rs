//! Tests of the data model and the small front-end state types: list
//! cursor movement, defaults, and the theme helpers.

use awesome_omarchy::{
    format_github_url, format_markdown_text, AppState, FocusArea, ListState, ReadmeContent,
    ReadmeMetadata, Section, ThemeParser,
};

#[test]
fn list_state_starts_at_first_item() {
    let state = ListState::new();
    assert_eq!(state.selected_index, Some(0));
    assert_eq!(state.offset, 0);
    let state = ListState::default();
    assert_eq!(state.selected_index, Some(0));
}

#[test]
fn list_state_select_pulls_offset_up() {
    let mut state = ListState::new();
    state.offset = 5;
    state.select(Some(3));
    assert_eq!(state.selected_index, Some(3));
    assert_eq!(state.offset, 3);
    state.select(Some(9));
    assert_eq!(state.selected_index, Some(9));
    assert_eq!(state.offset, 3);
    state.select(None);
    assert_eq!(state.selected_index, None);
    assert_eq!(state.offset, 3);
}

#[test]
fn list_state_next_wraps_and_scrolls() {
    let mut state = ListState::new();
    state.select_next(3);
    assert_eq!(state.selected_index, Some(1));
    state.select_next(3);
    assert_eq!(state.selected_index, Some(2));
    state.select_next(3);
    assert_eq!(state.selected_index, Some(0));

    // The offset follows a ten-item viewport.
    let mut state = ListState::new();
    for _ in 0..10 {
        state.select_next(30);
    }
    assert_eq!(state.selected_index, Some(10));
    assert_eq!(state.offset, 1);

    let mut state = ListState::new();
    state.select_next(0);
    assert_eq!(state.selected_index, None);
}

#[test]
fn list_state_previous_wraps() {
    let mut state = ListState::new();
    state.select_previous(4);
    assert_eq!(state.selected_index, Some(3));
    state.select_previous(4);
    assert_eq!(state.selected_index, Some(2));
    let mut state = ListState::new();
    state.select_previous(0);
    assert_eq!(state.selected_index, None);
    state.select_previous(5);
    assert_eq!(state.selected_index, Some(0));
}

#[test]
fn list_state_select_first_resets() {
    let mut state = ListState::new();
    state.select(Some(7));
    state.offset = 4;
    state.select_first();
    assert_eq!(state.selected_index, Some(0));
    assert_eq!(state.offset, 0);
}

#[test]
fn app_state_loading() {
    assert!(AppState::Loading.is_loading());
    assert!(!AppState::Ready.is_loading());
    assert!(!AppState::Error("boom".to_string()).is_loading());
}

#[test]
fn focus_area_defaults_to_content() {
    assert_eq!(FocusArea::default(), FocusArea::Content);
}

#[test]
fn section_new_is_empty() {
    let section = Section::new("Tools".to_string());
    assert_eq!(section.title, "Tools");
    assert!(section.entries.is_empty());
    assert_eq!(section.raw_content, "");
    assert_eq!(section.entry_count, 0);
}

#[test]
fn metadata_default_values() {
    let metadata = ReadmeMetadata::default();
    assert_eq!(metadata.title, "Awesome Omarchy");
    assert_eq!(metadata.description, "A curated list of awesome resources");
    assert_eq!(metadata.last_updated, None);
    assert_eq!(metadata.total_entries, 0);
}

#[test]
fn content_default_is_empty() {
    let content = ReadmeContent::default();
    assert!(content.sections.is_empty());
    assert!(content.search_index.terms.is_empty());
    assert_eq!(content.search_index.total_terms, 0);
    assert_eq!(content.metadata.total_entries, 0);
}

#[test]
fn normalize_color_forms() {
    let parser = ThemeParser::new();
    assert_eq!(parser.normalize_color("#1a1b26"), "#1a1b26");
    assert_eq!(parser.normalize_color("a1b2c3"), "#a1b2c3");
    assert_eq!(parser.normalize_color("  #fff  "), "#fff");
    assert_eq!(parser.normalize_color("red"), "red");
    assert_eq!(parser.normalize_color("12345"), "12345");
    assert_eq!(parser.normalize_color("a1b2cz"), "a1b2cz");
}

#[test]
fn theme_names_are_title_cased() {
    let parser = ThemeParser::new();
    assert_eq!(parser.format_theme_name("tokyo-night"), "Tokyo Night");
    assert_eq!(parser.format_theme_name("gruvbox"), "Gruvbox");
    assert_eq!(parser.format_theme_name("a--b"), "A  B");
    assert_eq!(parser.format_theme_name(""), "");
}

#[test]
fn default_palettes_are_fixed() {
    let parser = ThemeParser::new();
    let normal = parser.create_default_palette();
    assert_eq!(normal.black, "#32344a");
    assert_eq!(normal.white, "#787c99");
    let bright = parser.create_default_bright_palette();
    assert_eq!(bright.black, "#444b6a");
    assert_eq!(bright.white, "#acb0d0");
}

#[test]
fn markdown_text_is_flattened() {
    assert_eq!(format_markdown_text("**bold** and *italic*  "), "bold and italic");
    assert_eq!(format_markdown_text("*a**b*"), "ab");
    assert_eq!(format_markdown_text("   plain   "), "plain");
    assert_eq!(format_markdown_text(""), "");
}

#[test]
fn github_urls_are_shortened() {
    assert_eq!(format_github_url("https://github.com/user/repo"), "user/repo");
    assert_eq!(
        format_github_url("https://github.com/user/repo/tree/main"),
        "user/repo"
    );
    assert_eq!(format_github_url("https://github.com/user"), "user");
    assert_eq!(format_github_url("https://example.com/x/y"), "https://example.com/x/y");
}
