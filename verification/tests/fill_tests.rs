use template_fill::dir::{DirEntry, Directory};
use template_fill::engine::fill;

fn entry(name: &str, text: &str) -> DirEntry {
    DirEntry { name: name.as_bytes().to_vec(), content: Ok(text.as_bytes().to_vec()) }
}

fn broken_entry(name: &str, message: &str) -> DirEntry {
    DirEntry { name: name.as_bytes().to_vec(), content: Err(message.to_string()) }
}

fn fill_str(doc: &str, directory: &Directory) -> String {
    let result = fill(&doc.as_bytes().to_vec(), directory).unwrap();
    String::from_utf8(result).unwrap()
}

#[test]
fn no_marker_document_unchanged() {
    let directory = Directory { entries: vec![entry("name", "World")] };
    let doc = "plain text with no markers at all";
    assert_eq!(fill_str(doc, &directory), doc);
}

#[test]
fn empty_document_unchanged() {
    let directory = Directory { entries: vec![] };
    assert_eq!(fill_str("", &directory), "");
}

#[test]
fn single_braces_are_not_markers() {
    let directory = Directory { entries: vec![entry("a", "A")] };
    let doc = "{a} and {{a} and {a}} stay";
    assert_eq!(fill_str(doc, &directory), doc);
}

#[test]
fn empty_identifier_is_not_a_marker() {
    let directory = Directory { entries: vec![entry("a", "A")] };
    let doc = "{{}}";
    assert_eq!(fill_str(doc, &directory), doc);
}

#[test]
fn successful_single_substitution() {
    let directory = Directory { entries: vec![entry("name", "World")] };
    let rendered = markdown::to_html("World");
    let expected = format!("Hello {}!", rendered);
    let got = fill_str("Hello {{name}}!", &directory);
    assert_eq!(got, expected);
    // the rendering step really transforms the content
    assert_ne!(got, "Hello World!");
    assert!(got.contains("<p>"));
}

#[test]
fn missing_content_leaves_marker_literal() {
    let directory = Directory { entries: vec![entry("other", "text")] };
    let doc = "{{missing}}";
    assert_eq!(fill_str(doc, &directory), doc);
}

#[test]
fn unreadable_content_leaves_marker_literal() {
    let directory = Directory { entries: vec![broken_entry("bio", "permission denied")] };
    let doc = "start {{bio}} end";
    assert_eq!(fill_str(doc, &directory), doc);
}

#[test]
fn duplicate_markers_all_replaced() {
    let directory = Directory { entries: vec![entry("a", "alpha")] };
    let got = fill_str("{{a}} and {{a}}", &directory);
    let rendered = markdown::to_html("alpha");
    assert_eq!(got, format!("{} and {}", rendered, rendered));
    assert!(!got.contains("{{a}}"));
}

#[test]
fn hyphenated_identifier_never_matched() {
    let directory = Directory {
        entries: vec![entry("na-me", "X"), entry("na", "Y"), entry("me", "Z")],
    };
    let doc = "{{na-me}}";
    assert_eq!(fill_str(doc, &directory), doc);
}

#[test]
fn identifiers_are_case_sensitive() {
    let directory = Directory { entries: vec![entry("name", "World")] };
    let doc = "{{Name}}";
    assert_eq!(fill_str(doc, &directory), doc);
}

#[test]
fn order_preserved_with_multiple_markers() {
    let directory = Directory { entries: vec![entry("x", "one"), entry("y", "two")] };
    let got = fill_str("A {{x}} B {{y}} C", &directory);
    let expected =
        format!("A {} B {} C", markdown::to_html("one"), markdown::to_html("two"));
    assert_eq!(got, expected);
}

#[test]
fn mix_of_resolved_and_unresolved_markers() {
    let directory = Directory { entries: vec![entry("x", "one")] };
    let got = fill_str("A {{x}} B {{gone}} C", &directory);
    let expected = format!("A {} B {{{{gone}}}} C", markdown::to_html("one"));
    assert_eq!(got, expected);
}

#[test]
fn rendered_content_can_be_hit_by_a_later_fold_step() {
    // the fold replaces every remaining occurrence of a matched
    // literal in the whole accumulator, so a marker literal that the
    // first replacement brings in is replaced by the later step for
    // the same literal
    let directory = Directory { entries: vec![entry("a", "{{b}}"), entry("b", "B")] };
    let got = fill_str("{{a}} {{b}}", &directory);
    let expected = "{{a}} {{b}}"
        .replace("{{a}}", &markdown::to_html("{{b}}"))
        .replace("{{b}}", &markdown::to_html("B"));
    assert_eq!(got, expected);
}

#[test]
fn first_entry_of_a_name_wins() {
    let directory = Directory { entries: vec![entry("a", "first"), entry("a", "second")] };
    let got = fill_str("{{a}}", &directory);
    assert_eq!(got, markdown::to_html("first"));
}

#[test]
fn markers_at_the_document_edges() {
    let directory = Directory { entries: vec![entry("a", "left"), entry("b", "right")] };
    let got = fill_str("{{a}} mid {{b}}", &directory);
    let expected =
        format!("{} mid {}", markdown::to_html("left"), markdown::to_html("right"));
    assert_eq!(got, expected);
}

#[test]
fn multibyte_text_around_markers_is_preserved() {
    let directory = Directory { entries: vec![entry("x", "one")] };
    let got = fill_str("héllo {{x}} wörld", &directory);
    assert_eq!(got, format!("héllo {} wörld", markdown::to_html("one")));
}

#[test]
fn markdown_structure_is_rendered() {
    let directory = Directory { entries: vec![entry("title", "# Hi Mercury!")] };
    let got = fill_str("{{title}}", &directory);
    assert_eq!(got, "<h1>Hi Mercury!</h1>");
}
