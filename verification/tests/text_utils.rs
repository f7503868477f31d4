//! Text helpers shared by both engines: trimming, decimal rendering, string
//! comparison, the embed footer, the reply preview, and group headers.

use blahaj::relationship::format_group_header;
use blahaj::starboard::{star_footer, summarized_message_content};
use blahaj::text::{str_eq, str_le, trim_optional_text, trim_str, u64_to_string};

#[test]
fn trims_leading_and_trailing_whitespace() {
    assert_eq!(trim_str("  hello there \t"), "hello there");
    assert_eq!(trim_str("inner  spacing stays"), "inner  spacing stays");
    assert_eq!(trim_str("   "), "");
    assert_eq!(trim_str(""), "");
}

#[test]
fn optional_text_becomes_none_when_blank() {
    assert_eq!(trim_optional_text(None), None);
    assert_eq!(trim_optional_text(Some("   ".to_string())), None);
    assert_eq!(
        trim_optional_text(Some("  dear friends ".to_string())),
        Some("dear friends".to_string())
    );
}

#[test]
fn renders_counters_in_decimal() {
    assert_eq!(u64_to_string(0), "0");
    assert_eq!(u64_to_string(7), "7");
    assert_eq!(u64_to_string(42), "42");
    assert_eq!(u64_to_string(305), "305");
    assert_eq!(u64_to_string(18446744073709551615), "18446744073709551615");
}

#[test]
fn compares_strings_by_characters() {
    assert!(str_eq("abc", "abc"));
    assert!(!str_eq("abc", "abd"));
    assert!(!str_eq("abc", "ab"));
    assert!(str_le("abc", "abd"));
    assert!(str_le("ab", "abc"));
    assert!(!str_le("b", "ab"));
    assert!(str_le("same", "same"));
}

#[test]
fn footer_shows_the_star_glyph_and_count() {
    assert_eq!(star_footer(3), "\u{2b50} 3");
    assert_eq!(star_footer(4), "\u{2b50} 4");
    assert_eq!(star_footer(120), "\u{2b50} 120");
}

#[test]
fn preview_collapses_whitespace_and_substitutes_placeholders() {
    assert_eq!(
        summarized_message_content("hello   there\n general", false),
        "hello there general"
    );
    assert_eq!(
        summarized_message_content("", true),
        "[attachment-only message]"
    );
    assert_eq!(summarized_message_content("  \n ", false), "[no text content]");
}

#[test]
fn preview_truncates_at_three_hundred_characters() {
    let long = "x".repeat(400);
    let preview = summarized_message_content(&long, false);
    assert_eq!(preview.chars().count(), 301);
    assert!(preview.ends_with('\u{2026}'));
    let exact = "y".repeat(300);
    assert_eq!(summarized_message_content(&exact, false), exact);
}

#[test]
fn group_headers_carry_emoji_and_description() {
    assert_eq!(format_group_header("marriage", None, None), "`marriage`");
    assert_eq!(
        format_group_header("marriage", Some("\u{1f48d}"), None),
        "\u{1f48d} `marriage`"
    );
    assert_eq!(
        format_group_header("friend", Some("\u{2728}"), Some("the lunch crew")),
        "\u{2728} `friend` - the lunch crew"
    );
    assert_eq!(
        format_group_header("friend", None, Some("the lunch crew")),
        "`friend` - the lunch crew"
    );
}
