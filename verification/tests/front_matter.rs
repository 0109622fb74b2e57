use tika::document::{FieldName, ParseError};
use tika::front_matter::parse;

fn chars(s: &str) -> Vec<char> {
    s.chars().collect()
}

const NOTE: &str = "---\nauthor: Steve Sosik\ndate: 2021-06-22T12:48:16-0400\ntags:\n- tika\ntitle: This is an example note\n---\n\nSome note here formatted with Markdown syntax\n";

#[test]
fn a_full_note_parses() {
    let d = parse(&chars(NOTE)).unwrap();
    assert_eq!(d.author, "Steve Sosik");
    assert_eq!(d.date, "2021-06-22T12:48:16-0400");
    assert_eq!(d.tags, vec!["tika".to_string()]);
    assert_eq!(d.title, "This is an example note");
    assert_eq!(d.filename, "");
    assert_eq!(d.full_path, "");
    assert_eq!(d.body, "\nSome note here formatted with Markdown syntax");
}

#[test]
fn scalar_tags_become_a_one_element_list() {
    let text = "---\ntitle: t\ndate: 2021-06-22T12:48:16-0400\ntags: vim\n---\nbody";
    let d = parse(&chars(text)).unwrap();
    assert_eq!(d.tags, vec!["vim".to_string()]);
}

#[test]
fn list_tags_keep_their_order_and_duplicates() {
    let text = "---\ntitle: t\ndate: 2021-06-22T12:48:16-0400\ntags:\n- b\n- a\n- b\n---\n";
    let d = parse(&chars(text)).unwrap();
    assert_eq!(
        d.tags,
        vec!["b".to_string(), "a".to_string(), "b".to_string()]
    );
}

#[test]
fn an_explicit_empty_tag_list_is_legal() {
    let text = "---\ntitle: t\ndate: 2021-06-22T12:48:16-0400\ntags:\n---\n";
    let d = parse(&chars(text)).unwrap();
    assert!(d.tags.is_empty());
    let flow = "---\ntitle: t\ndate: 2021-06-22T12:48:16-0400\ntags: []\n---\n";
    let d2 = parse(&chars(flow)).unwrap();
    assert!(d2.tags.is_empty());
}

#[test]
fn a_flow_sequence_of_scalars_is_read_element_by_element() {
    let flow = "---\ntitle: t\ndate: 2021-06-22T12:48:16-0400\ntags: [a, b, a]\n---\n";
    let d = parse(&chars(flow)).unwrap();
    assert_eq!(
        d.tags,
        vec!["a".to_string(), "b".to_string(), "a".to_string()]
    );
    // quoted elements keep commas and brackets as content
    let quoted = "---\ntitle: t\ndate: 2021-06-22T12:48:16-0400\ntags: [\"x y\", '[z]']\n---\n";
    let d2 = parse(&chars(quoted)).unwrap();
    assert_eq!(d2.tags, vec!["x y".to_string(), "[z]".to_string()]);
    // a trailing comma adds nothing
    let trailing = "---\ntitle: t\ndate: 2021-06-22T12:48:16-0400\ntags: [a,]\n---\n";
    assert_eq!(parse(&chars(trailing)).unwrap().tags, vec!["a".to_string()]);
}

#[test]
fn a_nested_or_malformed_tags_value_fails_instead_of_coercing() {
    // an indented continuation is a nested value, not an item list
    let nested = "---\ntitle: t\ndate: 2021-06-22T12:48:16-0400\ntags:\n  deep: x\n---\n";
    assert_eq!(parse(&chars(nested)).unwrap_err(), ParseError::BadTags);
    // mappings, unclosed flow text and nested flow values are not read
    let flow_map = "---\ntitle: t\ndate: 2021-06-22T12:48:16-0400\ntags: {a: b}\n---\n";
    assert_eq!(parse(&chars(flow_map)).unwrap_err(), ParseError::BadTags);
    let unclosed = "---\ntitle: t\ndate: 2021-06-22T12:48:16-0400\ntags: [a, b\n---\n";
    assert_eq!(parse(&chars(unclosed)).unwrap_err(), ParseError::BadTags);
    let nested_flow = "---\ntitle: t\ndate: 2021-06-22T12:48:16-0400\ntags: [[a], b]\n---\n";
    assert_eq!(parse(&chars(nested_flow)).unwrap_err(), ParseError::BadTags);
    let empty_elem = "---\ntitle: t\ndate: 2021-06-22T12:48:16-0400\ntags: [a,,b]\n---\n";
    assert_eq!(parse(&chars(empty_elem)).unwrap_err(), ParseError::BadTags);
}

#[test]
fn quoted_scalars_lose_their_quotes() {
    let text = "---\ntitle: \"a: quoted title\"\ndate: '2021-06-22T12:48:16-0400'\ntags: \"vim\"\n---\n";
    let d = parse(&chars(text)).unwrap();
    assert_eq!(d.title, "a: quoted title");
    assert_eq!(d.date, "2021-06-22T12:48:16-0400");
    assert_eq!(d.tags, vec!["vim".to_string()]);
    let item = "---\ntitle: t\ndate: 2021-06-22T12:48:16-0400\ntags:\n- 'a b'\n---\n";
    assert_eq!(parse(&chars(item)).unwrap().tags, vec!["a b".to_string()]);
}

#[test]
fn a_crlf_file_parses_like_its_lf_twin() {
    let text = "---\r\ntitle: t\r\ndate: 2021-06-22T12:48:16-0400\r\ntags:\r\n- a\r\n---\r\nbody\r\n";
    let d = parse(&chars(text)).unwrap();
    assert_eq!(d.title, "t");
    assert_eq!(d.tags, vec!["a".to_string()]);
}

#[test]
fn missing_title_is_reported() {
    let text = "---\ndate: 2021-06-22T12:48:16-0400\ntags: x\n---\n";
    assert_eq!(
        parse(&chars(text)).unwrap_err(),
        ParseError::MissingField(FieldName::Title)
    );
}

#[test]
fn missing_date_and_missing_tags_are_reported() {
    let no_date = "---\ntitle: t\ntags: x\n---\n";
    assert_eq!(
        parse(&chars(no_date)).unwrap_err(),
        ParseError::MissingField(FieldName::Date)
    );
    let no_tags = "---\ntitle: t\ndate: 2021-06-22T12:48:16-0400\n---\n";
    assert_eq!(
        parse(&chars(no_tags)).unwrap_err(),
        ParseError::MissingField(FieldName::Tags)
    );
}

#[test]
fn text_without_a_front_matter_block_is_rejected() {
    assert_eq!(
        parse(&chars("just some markdown\n")).unwrap_err(),
        ParseError::NoFrontMatter
    );
    assert_eq!(
        parse(&chars("---\ntitle: t\nnever closed")).unwrap_err(),
        ParseError::NoFrontMatter
    );
    assert_eq!(parse(&chars("")).unwrap_err(), ParseError::NoFrontMatter);
}

#[test]
fn values_are_trimmed_and_filename_can_be_given() {
    let text =
        "---\ntitle:   padded   \ndate: 2021-06-22T12:48:16-0400\ntags: x\nfilename: note.md\n---\n";
    let d = parse(&chars(text)).unwrap();
    assert_eq!(d.title, "padded");
    assert_eq!(d.filename, "note.md");
}
