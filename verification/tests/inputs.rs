use zhhz::custom::{parse_dict_string, parse_pair_string};
use zhhz::inputs::{collapse_stdin, file_list};

fn strs(v: &[&str]) -> Vec<String> {
    v.iter().map(|s| s.to_string()).collect()
}

#[test]
fn newline_separated_list() {
    assert_eq!(file_list(b"a.txt\n  b.txt \r\n\n\nc d.txt", false), strs(&["a.txt", "b.txt", "c d.txt"]));
    assert_eq!(file_list(b"", false), Vec::<String>::new());
    assert_eq!(file_list(b"x\n", false), strs(&["x"]));
}

#[test]
fn nul_separated_list() {
    assert_eq!(file_list(b"a\nb\0c\0\0", true), strs(&["a\nb", "c"]));
}

#[test]
fn invalid_utf8_is_replaced() {
    assert_eq!(file_list(&[b'a', 0xFF, b'\n', b'b'], false), strs(&["a\u{FFFD}", "b"]));
}

#[test]
fn stdin_is_read_once() {
    assert_eq!(collapse_stdin(&strs(&["-", "a", "-", "b", "-"])), strs(&["-", "a", "b"]));
    assert_eq!(collapse_stdin(&strs(&["a", "b"])), strs(&["a", "b"]));
}

fn pairs(v: &[(&str, &str)]) -> Vec<(String, String)> {
    v.iter().map(|(a, b)| (a.to_string(), b.to_string())).collect()
}

#[test]
fn dict_string_entries() {
    assert_eq!(
        parse_dict_string("软件 軟體|苹果 蘋果").unwrap(),
        pairs(&[("软件", "軟體"), ("苹果", "蘋果")])
    );
    assert_eq!(
        parse_dict_string("  a  b c | | x\u{3000}y z ").unwrap(),
        pairs(&[("a", "b c"), ("x\u{3000}y", "z")])
    );
}

#[test]
fn dict_string_errors() {
    assert_eq!(parse_dict_string("  ").unwrap_err(), "custom dict string is empty");
    assert_eq!(parse_dict_string("|| |").unwrap_err(), "custom dict string parsed to zero entries");
    assert_eq!(
        parse_dict_string("a b||noval").unwrap_err(),
        "dict entry 2: expected \"key value\" separated by a space, got \"noval\""
    );
}

#[test]
fn pair_string_entries_and_errors() {
    assert_eq!(parse_pair_string(" 软件 軟體 |苹果 蘋果").unwrap(), pairs(&[("软件", "軟體"), ("苹果", "蘋果")]));
    assert_eq!(parse_pair_string("  ").unwrap_err(), "custom dict string parsed to zero entries");
    assert_eq!(
        parse_pair_string("a b|noval").unwrap_err(),
        "dict entry 1: expected 'key value' separated by a space, got \"noval\""
    );
}

use zhhz::custom::{pair_entries, PairItem};

fn item(k: Option<&str>, v: Option<&str>) -> PairItem {
    PairItem::Pair(k.map(|s| s.to_string()), v.map(|s| s.to_string()))
}

#[test]
fn array_form_entries() {
    let items = vec![item(Some("软件"), Some("軟體")), item(Some("苹果"), Some("蘋果"))];
    assert_eq!(pair_entries(&items).unwrap(), pairs(&[("软件", "軟體"), ("苹果", "蘋果")]));
}

#[test]
fn array_form_errors() {
    assert_eq!(pair_entries(&vec![]).unwrap_err(), "entries array is empty");
    let bad = vec![item(Some("a"), Some("b")), PairItem::NotPair("number".to_string())];
    assert_eq!(pair_entries(&bad).unwrap_err(), "entries[1] must be a [key, value] pair, got number");
    assert_eq!(pair_entries(&vec![item(None, Some("b"))]).unwrap_err(), "entries[0][0] (key) must be a string");
    assert_eq!(pair_entries(&vec![item(Some("a"), None)]).unwrap_err(), "entries[0][1] (value) must be a string");
    let empty_key = vec![item(Some("a"), Some("b")), item(Some("c"), Some("d")), item(Some(""), Some("x"))];
    assert_eq!(pair_entries(&empty_key).unwrap_err(), "entries[2] has an empty key");
}
