use zhhz::dict::{group_longest_prefix, Dict};

#[test]
fn dict_longest_prefix_basic() {
    let d = Dict::from_entries(&[
        ("ab".to_string(), "AB".to_string()),
        ("abc".to_string(), "ABC".to_string()),
    ]);
    assert_eq!(d.longest_prefix("abcd"), Some((3, "ABC")));
    assert_eq!(d.longest_prefix("abx"), Some((2, "AB")));
    assert_eq!(d.longest_prefix("xb"), None);
}

#[test]
fn arena_no_box() {
    let entries: Vec<(String, String)> = (0..2000)
        .map(|i| (format!("汉字{i}"), format!("漢字{i}")))
        .collect();
    let d = Dict::from_entries(&entries);
    assert_eq!(d.longest_prefix("汉字0尾"), Some((7, "漢字0")));
}

#[test]
fn engine_longest_prefix_basic() {
    let d = Dict::from_entries(&[
        ("ab".to_string(), "AB".to_string()),
        ("abc".to_string(), "ABC".to_string()),
    ]);
    assert_eq!(d.longest_prefix("abcd"), Some((3, "ABC")));
    assert_eq!(d.longest_prefix("abx"), Some((2, "AB")));
    assert_eq!(d.longest_prefix("xb"), None);
}

#[test]
fn group_priority_dominates_length() {
    let high = Dict::from_entries(&[("ab".to_string(), "HI".to_string())]);
    let low = Dict::from_entries(&[("abc".to_string(), "LO".to_string())]);
    let group = vec![high, low];
    assert_eq!(group_longest_prefix(&group, "abcd"), Some((2, "HI")));
}

#[test]
fn group_falls_through() {
    let high = Dict::from_entries(&[("zz".to_string(), "Z".to_string())]);
    let low = Dict::from_entries(&[("abc".to_string(), "LO".to_string())]);
    let group = vec![high, low];
    assert_eq!(group_longest_prefix(&group, "abcd"), Some((3, "LO")));
}

#[test]
fn from_text_takes_first_value_and_skips_comments() {
    let raw = "# comment\n中\t中\n国\t國 国\r\n中国\t中國\n\nbad line\n空\t \n";
    let d = Dict::from_text(raw);
    assert_eq!(d.longest_prefix("中国话"), Some((6, "中國")));
    assert_eq!(d.longest_prefix("中午"), Some((3, "中")));
    assert_eq!(d.longest_prefix("国家"), Some((3, "國")));
    assert_eq!(d.longest_prefix("bad"), None);
    assert_eq!(d.longest_prefix("空"), None);
    assert_eq!(d.longest_prefix("#"), None);
}

#[test]
fn later_entries_win() {
    let d = Dict::from_entries(&[
        ("软件".to_string(), "軟件".to_string()),
        ("软件".to_string(), "軟體".to_string()),
    ]);
    assert_eq!(d.longest_prefix("软件"), Some((6, "軟體")));
}

#[test]
fn empty_key_never_matches() {
    let d = Dict::from_entries(&[("".to_string(), "X".to_string())]);
    assert_eq!(d.longest_prefix("abc"), None);
    assert_eq!(d.longest_prefix(""), None);
}

#[test]
fn byte_length_counts_utf8() {
    let d = Dict::from_entries(&[("é😀".to_string(), "v".to_string())]);
    assert_eq!(d.longest_prefix("é😀x"), Some((6, "v")));
}

#[test]
fn empty_group_matches_nothing() {
    let group: Vec<Dict> = Vec::new();
    assert_eq!(group_longest_prefix(&group, "abc"), None);
}

#[test]
fn text_and_parsed_pairs_agree() {
    let raw = "# header\n汉\t漢 汉\r\n汉字\t漢字\n\nbad line\n字\t字\n汉\t漢2\n";
    let pairs: Vec<(String, String)> = zhhz::lines::dict_entries(raw)
        .into_iter()
        .map(|(k, v)| (k.into_iter().collect(), v.into_iter().collect()))
        .collect();
    assert_eq!(pairs.len(), 4);
    let a = Dict::from_text(raw);
    let b = Dict::from_entries(&pairs);
    for t in ["汉", "汉字", "汉字字", "字汉", "x", ""] {
        assert_eq!(a.longest_prefix(t), b.longest_prefix(t));
    }
    assert_eq!(a.longest_prefix("汉x"), Some((3, "漢2")));
}
