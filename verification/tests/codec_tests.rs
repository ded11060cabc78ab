//! Tests of the canonical catalog encoding: a full round trip through a
//! parsed catalog, and rejection of malformed or truncated input.

use awesome_omarchy::{decode_catalog, encode_catalog, ReadmeParser};

#[test]
fn round_trip_reproduces_the_catalog() {
    let parser = ReadmeParser::new();
    let markdown = r#"
# Awesome List

## Tools

- [Rust CLI](https://github.com/user/rust-cli) - A command line tool written in Rust
- [Helper](https://github.com/user/helper) - A helper library

## Resources

- [Guide](https://github.com/user/guide) - The guide
"#;
    let original = parser.parse(markdown).unwrap();
    let encoded = encode_catalog(&original);
    let decoded = decode_catalog(encoded.as_str()).expect("decoding an encoded catalog");
    assert_eq!(decoded, original);
}

#[test]
fn round_trip_keeps_every_field() {
    let parser = ReadmeParser::new();
    let markdown = "# T\n\n## Tools\n\n- [Rust CLI](https://github.com/u/r) - a rust web tool\n";
    let original = parser.parse(markdown).unwrap();
    let decoded = decode_catalog(encode_catalog(&original).as_str()).unwrap();

    assert_eq!(decoded.metadata.title, original.metadata.title);
    assert_eq!(decoded.metadata.description, original.metadata.description);
    assert_eq!(decoded.metadata.last_updated, original.metadata.last_updated);
    assert_eq!(decoded.metadata.total_entries, original.metadata.total_entries);

    assert_eq!(decoded.sections.len(), original.sections.len());
    let (ds, os) = (&decoded.sections[0], &original.sections[0]);
    assert_eq!(ds.title, os.title);
    assert_eq!(ds.raw_content, os.raw_content);
    assert_eq!(ds.entry_count, os.entry_count);
    assert_eq!(ds.entries[0].title, os.entries[0].title);
    assert_eq!(ds.entries[0].url, os.entries[0].url);
    assert_eq!(ds.entries[0].description, os.entries[0].description);
    assert_eq!(ds.entries[0].tags, os.entries[0].tags);

    assert_eq!(decoded.search_index.total_terms, original.search_index.total_terms);
    assert_eq!(decoded.search_index.terms.len(), original.search_index.terms.len());
    for (db, ob) in decoded.search_index.terms.iter().zip(original.search_index.terms.iter()) {
        assert_eq!(db.term, ob.term);
        assert_eq!(db.locations.len(), ob.locations.len());
        for (dl, ol) in db.locations.iter().zip(ob.locations.iter()) {
            assert_eq!(dl.section_index, ol.section_index);
            assert_eq!(dl.entry_index, ol.entry_index);
            assert_eq!(dl.line_content, ol.line_content);
            assert_eq!(dl.start_pos, ol.start_pos);
            assert_eq!(dl.end_pos, ol.end_pos);
            assert_eq!(dl.search_priority, ol.search_priority);
            assert_eq!(dl.github_url, ol.github_url);
        }
    }
}

#[test]
fn decoded_catalog_searches_like_the_original() {
    let parser = ReadmeParser::new();
    let markdown = "# T\n\n## Tools\n\n- [Rust CLI](https://github.com/u/r) - a tool\n";
    let original = parser.parse(markdown).unwrap();
    let decoded = decode_catalog(encode_catalog(&original).as_str()).unwrap();
    let original_hits = original.search_index.search("rust");
    let decoded_hits = decoded.search_index.search("rust");
    assert_eq!(decoded_hits.len(), original_hits.len());
    assert_eq!(decoded_hits[0].relevance_score, original_hits[0].relevance_score);
    assert_eq!(decoded_hits[0].line_content, original_hits[0].line_content);
}

#[test]
fn malformed_input_is_rejected() {
    assert!(decode_catalog("").is_none());
    assert!(decode_catalog("garbage").is_none());
    assert!(decode_catalog("sections=0:").is_none());

    // A valid encoding with trailing garbage is rejected whole.
    let parser = ReadmeParser::new();
    let original = parser
        .parse("# T\n\n## Tools\n\n- [A](https://github.com/u/a) - x\n")
        .unwrap();
    let mut encoded = encode_catalog(&original);
    assert!(decode_catalog(encoded.as_str()).is_some());
    encoded.push('x');
    assert!(decode_catalog(encoded.as_str()).is_none());

    // A truncated encoding is rejected.
    let encoded = encode_catalog(&original);
    let truncated: String = encoded.chars().take(encoded.chars().count() - 1).collect();
    assert!(decode_catalog(truncated.as_str()).is_none());
}

#[test]
fn unicode_content_round_trips() {
    let parser = ReadmeParser::new();
    let markdown = "# Liste\n\n## Outils\n\n- [Crème](https://github.com/u/creme) - très bon outil\n";
    let original = parser.parse(markdown).unwrap();
    let decoded = decode_catalog(encode_catalog(&original).as_str()).unwrap();
    assert_eq!(decoded, original);
    assert_eq!(decoded.sections[0].entries[0].title, "Crème");
}
