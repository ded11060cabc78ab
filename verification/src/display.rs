//! Display formatting of catalog content for a text front end: markdown
//! emphasis markers are stripped, and GitHub URLs are shortened to their
//! owner/repository part.

use vstd::prelude::*;

use crate::text::{
    chars_of, find_in, find_substring, has_sub, removed_all, remove_all, starts_with_chars,
    starts_with_s, string_of, sub_chars, trim_chars, trim_of,
};

verus! {

/// What formatting markdown text yields: all double-star markers removed
/// first, then all single stars, then surrounding whitespace trimmed.
pub open spec fn formatted_markdown(s: Seq<char>) -> Seq<char> {
    trim_of(removed_all(removed_all(s, "**"@), "*"@))
}

/// Strip simple markdown emphasis markers and trim the text.
pub fn format_markdown_text(text: &str) -> (r: String)
    ensures
        r@ == formatted_markdown(text@),
{
    let tv = chars_of(text);
    let stars = chars_of("**");
    proof {
        reveal_strlit("**");
    }
    let without_bold = remove_all(&tv, &stars);
    let star = chars_of("*");
    proof {
        reveal_strlit("*");
    }
    let without_emphasis = remove_all(&without_bold, &star);
    string_of(&trim_chars(&without_emphasis))
}

/// The display form of a URL: for a GitHub URL with both an owner and a
/// repository, just those two path segments; anything shorter keeps its
/// path; any other URL is shown unchanged.
pub open spec fn gh_display(url: Seq<char>) -> Seq<char> {
    if starts_with_s(url, "https://github.com/"@) {
        let rest = url.skip("https://github.com/"@.len() as int);
        match find_in(rest, seq!['/']) {
            None => rest,
            Some(p) => match find_in(rest.skip(p + 1), seq!['/']) {
                None => rest,
                Some(q) => rest.take(p + 1 + q),
            },
        }
    } else {
        url
    }
}

/// Shorten a GitHub URL to its owner/repository part for display.
pub fn format_github_url(url: &str) -> (r: String)
    ensures
        r@ == gh_display(url@),
{
    let uv = chars_of(url);
    let prefix = chars_of("https://github.com/");
    if !starts_with_chars(&uv, &prefix) {
        return string_of(&uv);
    }
    proof {
        reveal_strlit("https://github.com/");
    }
    let rest = sub_chars(&uv, prefix.len(), uv.len());
    assert(rest@ == url@.skip("https://github.com/"@.len() as int));
    let slash = chars_of("/");
    proof {
        reveal_strlit("/");
        assert(slash@ =~= seq!['/']);
    }
    let p = match find_substring(&rest, &slash) {
        None => {
            return string_of(&rest);
        },
        Some(p) => p,
    };
    proof {
        crate::text::lemma_find_in_props(rest@, seq!['/']);
    }
    let after = sub_chars(&rest, p + 1, rest.len());
    match find_substring(&after, &slash) {
        None => string_of(&rest),
        Some(q) => {
            proof {
                crate::text::lemma_find_in_props(after@, seq!['/']);
            }
            string_of(&sub_chars(&rest, 0, p + 1 + q))
        },
    }
}

} // verus!
