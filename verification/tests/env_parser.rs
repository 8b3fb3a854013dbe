use qad::ci::job::env_parser::{parse_env_into_map, read_env, EnvMap};

fn extract_map(map: EnvMap) -> String {
    let mut result = vec![];
    for (key, value) in map.entries() {
        result.push(format!("{}: [{}]", key, value.join(", ")));
    }
    result.sort();
    result.join("")
}

#[test]
pub fn empty() {
    let map = parse_env_into_map("");
    assert!(map.is_empty());
}

#[test]
pub fn multiple() {
    let map = parse_env_into_map("KEY1=value\nKEY2=value");
    assert_eq!(extract_map(map), vec!["KEY1: [value]", "KEY2: [value]"].join(""));
}

#[test]
pub fn multiple_with_multiline() {
    let map = parse_env_into_map("KEY1=value\nwith\nnew\nlines\nKEY2=value");
    assert_eq!(
        extract_map(map),
        vec!["KEY1: [value, with, new, lines]", "KEY2: [value]"].join("")
    );
}

#[test]
pub fn empty_var() {
    let map = parse_env_into_map("KEY1=\nKEY2=value");
    assert_eq!(extract_map(map), vec!["KEY1: []", "KEY2: [value]"].join(""));
}

#[test]
pub fn later_value_replaces_earlier() {
    let map = parse_env_into_map("A=1\nA=2");
    assert_eq!(map.len(), 1);
    assert_eq!(map.get("A").unwrap(), &vec!["2".to_string()]);
}

#[test]
pub fn map_insert_and_keys() {
    let mut map = EnvMap::new();
    map.insert("B".to_string(), vec!["x".to_string()]);
    map.insert("A".to_string(), vec![]);
    map.insert("B".to_string(), vec!["y".to_string()]);
    assert_eq!(map.keys(), vec!["B".to_string(), "A".to_string()]);
    assert_eq!(map.get("B").unwrap(), &vec!["y".to_string()]);
    assert!(map.get("C").is_none());
}

#[test]
pub fn text_is_cut_at_character_counts_taken_as_byte_offsets() {
    let map = parse_env_into_map("KÉY=v");
    assert_eq!(extract_map(map), "KÉ: [=]");
}

#[test]
pub fn a_cut_inside_a_character_cannot_be_read() {
    assert!(read_env("ÉÉ=x").is_none());
    assert!(read_env("KEY=é").is_none());
    assert!(read_env("KEY=v").is_some());
}
