use donutdb::codec::{decode_cell, encode_cell, load_lang_map, LangMap};

fn sample_map() -> LangMap {
    let mut m = LangMap::new();
    m.insert('a', "1".to_string());
    m.insert('b', "20".to_string());
    m.insert('c', "21".to_string());
    m
}

#[test]
fn encode_replaces_mapped_characters() {
    let m = sample_map();
    assert_eq!(encode_cell("abc", &m), "12021");
}

#[test]
fn encode_keeps_unmapped_characters() {
    let m = sample_map();
    assert_eq!(encode_cell("xyz", &m), "xyz");
    assert_eq!(encode_cell("axb", &m), "1x20");
}

#[test]
fn encode_empty_cell() {
    let m = sample_map();
    assert_eq!(encode_cell("", &m), "");
}

#[test]
fn decode_reads_tokens_greedily() {
    let m = sample_map();
    let r = m.reverse();
    assert_eq!(decode_cell("12021", &r), "abc");
}

#[test]
fn round_trip_prefix_free_map() {
    let m = sample_map();
    let r = m.reverse();
    for s in ["", "a", "abcab", "ccba", "bbbb"] {
        assert_eq!(decode_cell(&encode_cell(s, &m), &r), s);
    }
}

#[test]
fn decode_drops_unmatched_tail() {
    let m = sample_map();
    let r = m.reverse();
    assert_eq!(decode_cell("12", &r), "a");
    assert_eq!(decode_cell("q", &r), "");
}

#[test]
fn unmapped_character_matching_a_key_is_read_as_that_key() {
    let mut m = LangMap::new();
    m.insert('a', "x".to_string());
    let r = m.reverse();
    // 'x' is not in the map, yet it is a replacement string: decoding turns it into 'a'.
    assert_eq!(encode_cell("x", &m), "x");
    assert_eq!(decode_cell("x", &r), "a");
}

#[test]
fn insert_replaces_previous_entry() {
    let mut m = LangMap::new();
    m.insert('a', "1".to_string());
    m.insert('a', "9".to_string());
    assert_eq!(m.get('a'), Some(&"9".to_string()));
    assert_eq!(m.get('b'), None);
    assert_eq!(encode_cell("a", &m), "9");
}

#[test]
fn reverse_keeps_first_of_shared_replacements() {
    let mut m = LangMap::new();
    m.insert('a', "1".to_string());
    m.insert('b', "1".to_string());
    let r = m.reverse();
    assert_eq!(r.get(&"1".to_string()), Some('a'));
    assert_eq!(r.get(&"2".to_string()), None);
}

#[test]
fn load_lang_map_takes_first_character_of_keys() {
    let pairs = vec![
        ("a".to_string(), "%1".to_string()),
        ("bz".to_string(), "%2".to_string()),
        ("a".to_string(), "%3".to_string()),
    ];
    let m = load_lang_map(&pairs);
    assert_eq!(m.get('a'), Some(&"%3".to_string()));
    assert_eq!(m.get('b'), Some(&"%2".to_string()));
    assert_eq!(m.get('z'), None);
}
