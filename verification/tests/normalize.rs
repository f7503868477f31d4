//! Relationship-type normalization: variants of one type collide to a single
//! canonical string, and malformed inputs are rejected with the right error.

use blahaj::text::{normalize_relationship_type, TypeError};

#[test]
fn collapses_whitespace_and_case_to_one_canonical_form() {
    assert_eq!(
        normalize_relationship_type("Best  Friend").unwrap(),
        "best-friend"
    );
    assert_eq!(
        normalize_relationship_type("best-friend").unwrap(),
        "best-friend"
    );
    assert_eq!(
        normalize_relationship_type(" BEST friend ").unwrap(),
        "best-friend"
    );
}

#[test]
fn keeps_digits_and_single_dashes() {
    assert_eq!(normalize_relationship_type("marriage").unwrap(), "marriage");
    assert_eq!(normalize_relationship_type("gen 2 pal").unwrap(), "gen-2-pal");
    assert_eq!(
        normalize_relationship_type("adopted-sibling").unwrap(),
        "adopted-sibling"
    );
    assert_eq!(normalize_relationship_type("x\ty").unwrap(), "x-y");
}

#[test]
fn rejects_empty_input() {
    assert_eq!(normalize_relationship_type(""), Err(TypeError::Empty));
    assert_eq!(normalize_relationship_type("   "), Err(TypeError::Empty));
}

#[test]
fn rejects_too_short_and_too_long() {
    assert_eq!(normalize_relationship_type("a"), Err(TypeError::Length));
    let thirty_three = "a".repeat(33);
    assert_eq!(
        normalize_relationship_type(&thirty_three),
        Err(TypeError::Length)
    );
    let thirty_two = "a".repeat(32);
    assert_eq!(normalize_relationship_type(&thirty_two).unwrap(), thirty_two);
}

#[test]
fn rejects_characters_outside_the_type_alphabet() {
    assert_eq!(
        normalize_relationship_type("best_friend"),
        Err(TypeError::Charset)
    );
    assert_eq!(normalize_relationship_type("pal!"), Err(TypeError::Charset));
}
