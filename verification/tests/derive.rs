use zhhz::derive::{
    chars_less, extract_tofu_risk, generate_st_phrases, reverse_dict, st_projections_ok, tofu_markers_ok,
};
use zhhz::dict::Dict;

const REV_HEADER: &str = "# Open Chinese Convert (OpenCC) Dictionary (generated, reversed)\n\
# Format: key\tvalue(s) (values separated by spaces)\n\
# License: Apache-2.0 (see LICENSE)\n\
# Source: generated by zhhz from the corresponding variants file\n\
\n";

fn chars(s: &str) -> Vec<char> {
    s.chars().collect()
}

#[test]
fn code_point_order() {
    assert!(chars_less(&chars("a"), &chars("b")));
    assert!(chars_less(&chars("ab"), &chars("abc")));
    assert!(!chars_less(&chars("abc"), &chars("ab")));
    assert!(!chars_less(&chars("x"), &chars("x")));
    assert!(chars_less(&chars("裏"), &chars("裡")));
}

#[test]
fn reverse_groups_keys_by_value_in_order() {
    let text = "# comment\n裏\t裡\n衞\t衛 卫\n衛\t衛\n";
    let out = reverse_dict(text);
    let mut expected = String::from(REV_HEADER);
    // Values in code-point order: 卫 (U+536B), 衛 (U+885B), 裡 (U+88E1).
    expected.push_str("卫\t衞\n衛\t衞 衛\n裡\t裏\n");
    assert_eq!(out, expected);
}

#[test]
fn reverse_preference_moves_key_first() {
    let text = "# @reverse-prefer: 衛 x 衛\n衞\t衛\n衛\t衛\n";
    let out = reverse_dict(text);
    let mut expected = String::from(REV_HEADER);
    expected.push_str("衛\t衛 衞\n");
    assert_eq!(out, expected);
    // The last preference line for a value counts.
    let text = "# @reverse-prefer: v b\n# @reverse-prefer: v a\na\tv\nb\tv\n";
    let out = reverse_dict(text);
    assert!(out.ends_with("v\ta b\n"));
}

#[test]
fn tofu_risk_rows() {
    let text = "# @tofu-risk: x\n丟\t丟 丢\n乾\t幹\n# @tofu-risk:\r\n么\t么 幺 麼\r\n";
    assert!(tofu_markers_ok(text));
    assert_eq!(extract_tofu_risk(text), "丟\t丢\n么\t幺 麼\n");
}

#[test]
fn tofu_risk_malformed() {
    assert!(!tofu_markers_ok("a\tb\n# @tofu-risk:"));
    assert!(!tofu_markers_ok("# @tofu-risk:\n# not a mapping\n"));
    assert!(!tofu_markers_ok("# @tofu-risk:\n丟\t丟\n"));
    assert!(tofu_markers_ok("no markers\n"));
    assert_eq!(extract_tofu_risk("no markers\n"), "");
}

#[test]
fn projected_phrases() {
    let group = vec![
        Dict::from_text("軟體\t软件\n"),
        Dict::from_text("體\t体\n軟\t软\n"),
    ];
    let hk = "軟體系統\t軟件系統\n字\t字\n";
    let tw = "軟體\t軟體\n体系統\t体系统\n";
    assert!(st_projections_ok(hk, tw, &group));
    let out = generate_st_phrases(hk, tw, &group);
    assert!(out.starts_with("# Open Chinese Convert (OpenCC) Dictionary\n"));
    assert!(out.ends_with("before applying regional phrase vocabulary.\n\n体系統\t体系統\n软件系統\t軟體系統\n"));
}

#[test]
fn conflicting_projections_are_detected() {
    let group = vec![Dict::from_text("甲\t乙\n")];
    assert!(!st_projections_ok("甲丙丁\tx\n", "乙丙丁\ty\n", &group));
    assert!(st_projections_ok("甲丙丁\tx\n", "甲丙丁\ty\n", &group));
}
