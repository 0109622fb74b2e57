use tika::checksum::{adler32, checksum_str};
use tika::store::ChecksumStore;

#[test]
fn adler32_matches_the_known_vector() {
    // the classic Adler-32 example value
    assert_eq!(adler32(b"Wikipedia"), 0x11E60398);
    assert_eq!(adler32(b""), 1);
}

#[test]
fn checksum_of_text_is_over_its_utf8_bytes() {
    assert_eq!(checksum_str("Wikipedia"), 0x11E60398);
}

#[test]
fn one_byte_of_difference_changes_the_checksum() {
    let a = checksum_str("the quick brown fox");
    let b = checksum_str("the quick brown fix");
    assert_ne!(a, b);
}

#[test]
fn the_store_upserts_and_looks_up() {
    let mut st = ChecksumStore::new();
    assert_eq!(st.get(&"a".to_string()), None);
    st.set("a".to_string(), 7);
    st.set("b".to_string(), 8);
    assert_eq!(st.get(&"a".to_string()), Some(7));
    assert_eq!(st.get(&"b".to_string()), Some(8));
    st.set("a".to_string(), 9);
    assert_eq!(st.get(&"a".to_string()), Some(9));
}

#[test]
fn a_rendered_store_reads_back() {
    let mut st = ChecksumStore::new();
    st.set("notes/a.md".to_string(), 123456789);
    st.set("notes/b.md".to_string(), 42);
    st.set("notes/a.md".to_string(), 5);
    let text = st.render();
    let back = tika::store::parse_store(&text.chars().collect::<Vec<char>>());
    assert_eq!(back.get(&"notes/a.md".to_string()), Some(5));
    assert_eq!(back.get(&"notes/b.md".to_string()), Some(42));
    assert_eq!(back.get(&"notes/c.md".to_string()), None);
}

#[test]
fn rendering_is_ten_digits_tab_path() {
    let mut st = ChecksumStore::new();
    st.set("p".to_string(), 42);
    assert_eq!(st.render(), "0000000042\tp\n");
}

#[test]
fn malformed_lines_are_passed_over() {
    let text = "not a line\n0000000007\tgood.md\nbad\tentry\n";
    let st = tika::store::parse_store(&text.chars().collect::<Vec<char>>());
    assert_eq!(st.get(&"good.md".to_string()), Some(7));
    assert_eq!(st.get(&"not a line".to_string()), None);
    assert_eq!(st.get(&"entry".to_string()), None);
}

#[test]
fn an_empty_text_yields_an_empty_store() {
    let st = tika::store::parse_store(&Vec::<char>::new());
    assert_eq!(st.get(&"anything".to_string()), None);
}
