use ramhorns::lexer::count_tags;
use ramhorns::text::slice;
use ramhorns::{find_tag, next_token, read_body, Braces, Opening, Tag, Token};

#[test]
fn braces_default_to_two() {
    assert_eq!(Braces::default(), Braces::Two);
    assert_eq!(Braces::Two.len(), 2);
    assert_eq!(Braces::Three.len(), 3);
}

#[test]
fn find_tag_reads_every_sigil() {
    let two = Braces::Two;
    assert_eq!(find_tag("{{x", 0), Some(Opening { start: 0, tag: Tag::Escaped, braces: two, end: 2 }));
    assert_eq!(find_tag("{{&x", 0), Some(Opening { start: 0, tag: Tag::Unescaped, braces: two, end: 3 }));
    assert_eq!(
        find_tag("{{{x", 0),
        Some(Opening { start: 0, tag: Tag::Unescaped, braces: Braces::Three, end: 3 })
    );
    assert_eq!(find_tag("{{#x", 0), Some(Opening { start: 0, tag: Tag::Section, braces: two, end: 3 }));
    assert_eq!(find_tag("{{^x", 0), Some(Opening { start: 0, tag: Tag::Inverse, braces: two, end: 3 }));
    assert_eq!(find_tag("{{/x", 0), Some(Opening { start: 0, tag: Tag::Closing, braces: two, end: 3 }));
    assert_eq!(find_tag("{{>x", 0), Some(Opening { start: 0, tag: Tag::Partial, braces: two, end: 3 }));
    assert_eq!(find_tag("{{!x", 0), Some(Opening { start: 0, tag: Tag::Comment, braces: two, end: 3 }));
}

#[test]
fn find_tag_passes_over_text_and_single_braces() {
    assert_eq!(
        find_tag("ab { c {{#d}}", 0),
        Some(Opening { start: 7, tag: Tag::Section, braces: Braces::Two, end: 10 })
    );
    assert_eq!(
        find_tag("ab { c {{#d}}", 7),
        Some(Opening { start: 7, tag: Tag::Section, braces: Braces::Two, end: 10 })
    );
    assert_eq!(find_tag("ab { c {{#d}}", 8), None);
    assert_eq!(find_tag("no { tag } here {", 0), None);
    assert_eq!(find_tag("", 0), None);
    assert_eq!(find_tag("{", 0), None);
    assert_eq!(find_tag("{{x}}", 9), None);
}

#[test]
fn find_tag_at_the_end_of_the_source() {
    assert_eq!(
        find_tag("a{{", 0),
        Some(Opening { start: 1, tag: Tag::Escaped, braces: Braces::Two, end: 3 })
    );
}

#[test]
fn next_token_reads_names_and_braces() {
    assert_eq!(next_token("  name }}", 0, Braces::Two), Token::Ident { start: 2, end: 6 });
    assert_eq!(next_token("  name }}", 6, Braces::Two), Token::Match { at: 7 });
    assert_eq!(next_token("name}}", 0, Braces::Two), Token::Ident { start: 0, end: 4 });
    assert_eq!(next_token("name", 0, Braces::Two), Token::Ident { start: 0, end: 4 });
    assert_eq!(next_token("}}}", 0, Braces::Two), Token::Match { at: 0 });
    assert_eq!(next_token("}}}", 0, Braces::Three), Token::Match { at: 0 });
    assert_eq!(next_token("}}}}", 0, Braces::Three), Token::Match { at: 0 });
}

#[test]
fn next_token_stops_where_nothing_fits() {
    assert_eq!(next_token("", 0, Braces::Two), Token::Stop);
    assert_eq!(next_token("   ", 0, Braces::Two), Token::Stop);
    assert_eq!(next_token("}", 0, Braces::Two), Token::Stop);
    assert_eq!(next_token("} }", 0, Braces::Two), Token::Stop);
    assert_eq!(next_token("}}", 0, Braces::Three), Token::Stop);
    assert_eq!(next_token("}}x", 0, Braces::Three), Token::Stop);
    assert_eq!(next_token("abc", 7, Braces::Two), Token::Stop);
}

#[test]
fn read_body_collects_names() {
    let body = read_body("{{# a  b.c d}} e", 3, Braces::Two);
    assert_eq!(body.names, vec!["a", "b.c", "d"]);
    assert!(body.closed);
    assert_eq!(body.at, 12);
}

#[test]
fn read_body_without_names() {
    let body = read_body("{{ }}", 2, Braces::Two);
    assert_eq!(body.names.len(), 0);
    assert!(body.closed);
    assert_eq!(body.at, 3);
}

#[test]
fn read_body_that_breaks_off() {
    let body = read_body("{{a b", 2, Braces::Two);
    assert_eq!(body.names, vec!["a", "b"]);
    assert!(!body.closed);
    let body = read_body("{{{a }} b", 3, Braces::Three);
    assert_eq!(body.names, vec!["a"]);
    assert!(!body.closed);
}

#[test]
fn read_body_beyond_ascii() {
    let body = read_body("{{größe €}}", 2, Braces::Two);
    assert_eq!(body.names, vec!["größe", "€"]);
    assert!(body.closed);
    assert_eq!(body.at, 13);
}

#[test]
fn slice_cuts_between_characters() {
    assert_eq!(slice("héllo", 0, 3), "hé");
    assert_eq!(slice("héllo", 3, 6), "llo");
    assert_eq!(slice("héllo", 6, 6), "");
    assert_eq!(slice("héllo", 0, 0), "");
    assert_eq!(slice("héllo", 1, 3), "é");
}

#[test]
fn count_tags_counts_pairs_of_opening_braces() {
    assert_eq!(count_tags(""), 0);
    assert_eq!(count_tags("a { b } c"), 0);
    assert_eq!(count_tags("{{a}}{{#b}}x{{/b}}"), 3);
    assert_eq!(count_tags("{{{a}}}"), 1);
    assert_eq!(count_tags("{{{{"), 2);
    assert_eq!(count_tags("{{"), 1);
}
