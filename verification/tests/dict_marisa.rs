use zhhz::dict::Dict;
use zhhz::dict_marisa::MarisaDict;

#[test]
fn dict_marisa_longest_prefix_basic() {
    let d = MarisaDict::from_entries(&[
        ("ab".to_string(), "AB".to_string()),
        ("abc".to_string(), "ABC".to_string()),
    ]);
    assert_eq!(d.longest_prefix("abcd"), Some((3, "ABC")));
    assert_eq!(d.longest_prefix("abx"), Some((2, "AB")));
    assert_eq!(d.longest_prefix("xb"), None);
}

#[test]
fn chinese_keys() {
    let raw = "中\t中\n国\t國\n中国\t中國\n";
    let d = MarisaDict::from_text(raw);
    // Longest match in "中国话" is "中国" (2 chars = 6 bytes)
    assert_eq!(d.longest_prefix("中国话"), Some((6, "中國")));
    // Longest match in "中国人" is also "中国"
    assert_eq!(d.longest_prefix("中国人"), Some((6, "中國")));
    // Single-char "中" in "中午" → just "中" (3 bytes)
    assert_eq!(d.longest_prefix("中午"), Some((3, "中")));
}

#[test]
fn multi_value_exposed() {
    let raw = "出\t出 齣\n";
    let d = MarisaDict::from_text(raw);
    let (len, cands) = d.longest_prefix_multi("出门").unwrap();
    assert_eq!(len, 3);
    assert_eq!(cands, vec!["出", "齣"]);
    let (len, first) = d.longest_prefix("出门").unwrap();
    assert_eq!((len, first), (3, "出"));
}

#[test]
fn single_value_no_multi() {
    let raw = "中\t中\n国\t國\n";
    let d = MarisaDict::from_text(raw);
    let (len, cands) = d.longest_prefix_multi("中国").unwrap();
    assert_eq!(len, 3);
    assert_eq!(cands, vec!["中"]);
}

#[test]
fn comments_blank_and_malformed_lines() {
    let raw = "# comment\n\nnotab\nk\t\r\n中\t中 \r\n";
    let d = MarisaDict::from_text(raw);
    assert_eq!(d.stats().0, 1);
    assert_eq!(d.longest_prefix("k"), None);
    assert_eq!(d.longest_prefix("中"), Some((3, "中")));
}

#[test]
fn empty_dictionary_and_empty_text() {
    let d = MarisaDict::from_entries(&[]);
    assert_eq!(d.stats().0, 0);
    assert_eq!(d.longest_prefix("abc"), None);
    let d = MarisaDict::from_text("a\tA\n");
    assert_eq!(d.longest_prefix(""), None);
}

#[test]
fn stats_counts_keys() {
    let d = MarisaDict::from_text("a\tA\nab\tAB\nb\tB\n");
    assert_eq!(d.stats().0, 3);
}

#[test]
fn agrees_with_dict() {
    let raw = "中\t中\n国\t國\n中国\t中國 中国\n出\t出 齣\n";
    let d = Dict::from_text(raw);
    let m = MarisaDict::from_text(raw);
    for text in ["中国话", "中午", "国", "出门", "x中", ""] {
        assert_eq!(d.longest_prefix(text), m.longest_prefix(text), "{text}");
    }
}
