use zhhz::detect::{pct, sample};

#[test]
fn sample_truncates_at_utf8_boundary() {
    let text = "汉字汉字汉字汉字汉字";
    assert!(sample(text, 5).chars().all(|c| c == '汉' || c == '字'));
}

#[test]
fn sample_exact_prefixes() {
    let text = "汉字汉字";
    assert_eq!(sample(text, 5), "汉");
    assert_eq!(sample(text, 6), "汉字");
    assert_eq!(sample(text, 2), "");
    assert_eq!(sample(text, 100), "汉字汉字");
    assert_eq!(sample("abc", 2), "ab");
}

#[test]
fn pct_values() {
    assert_eq!(pct(1, 3), 33);
    assert_eq!(pct(0, 0), 0);
    assert_eq!(pct(3, 3), 100);
    assert_eq!(pct(5, 2), 100);
}

use zhhz::detect::{
    detect_bytes, detect_targets, detect_text, detection_line, parse_detect_args, DetectAction,
    Detection, Signatures,
};
use zhhz::engine::Region;

/// Signature sets from small dictionaries in the OpenCC text format.
fn sigs() -> Signatures {
    Signatures::from_texts(
        "汉\t漢\n计\t計\n机\t機\n软\t軟\n件\t件\n",
        "漢\t汉\n計\t计\n機\t机\n軟\t软\n體\t体\n",
        "鼠\t鼠\n裡\t裏\n",
        "裏\t裡\n綫\t線\n",
        "広\t廣\n体\t體\n",
    )
}

#[test]
fn ascii_returns_unknown() {
    assert!(detect_text(&sigs(), "hello world 123\n").is_none());
}

#[test]
fn pure_simplified() {
    let d = detect_text(&sigs(), "汉字计算机软件").expect("has CJK");
    assert_eq!(d.region, Region::CnS);
}

#[test]
fn pure_traditional_opencc() {
    let d = detect_text(&sigs(), "漢字計算機軟體").expect("has CJK");
    assert_eq!(d.region, Region::CnT);
}

#[test]
fn japanese_with_kana() {
    let d = detect_text(&sigs(), "こんにちは世界").expect("has kana or CJK");
    assert_eq!((d.region, d.confidence), (Region::JpN, 50));
    let d = detect_text(&sigs(), "こんにちは廣い").expect("has kana");
    assert_eq!((d.region, d.confidence), (Region::JpT, 100));
}

#[test]
fn regional_taiwan_signature() {
    let d = detect_text(&sigs(), "滑鼠與電腦").expect("has CJK");
    assert_eq!(d.region, Region::CnTw);
}

#[test]
fn detect_bytes_rejects_invalid_utf8() {
    assert!(detect_bytes(&sigs(), &[0xFF, 0xFE, 0x00]).is_none());
    let d = detect_bytes(&sigs(), "汉字".as_bytes()).expect("valid UTF-8");
    assert_eq!(d.region, Region::CnS);
}

#[test]
fn confidence_is_the_winning_share() {
    // 3 of 4 CJK characters are Simplified signatures.
    let d = detect_text(&sigs(), "汉计机字").unwrap();
    assert_eq!((d.region, d.confidence), (Region::CnS, 75));
}

#[test]
fn report_lines() {
    let d = Detection { region: Region::CnTw, confidence: 87 };
    assert_eq!(detection_line(Some(d), "a.txt"), "cn-tw\t87\ta.txt\n");
    assert_eq!(detection_line(None, "-"), "unknown\t0\t-\n");
    let d = Detection { region: Region::JpN, confidence: 100 };
    assert_eq!(detection_line(Some(d), "x"), "jp-n\t100\tx\n");
}

fn strs(v: &[&str]) -> Vec<String> {
    v.iter().map(|s| s.to_string()).collect()
}

#[test]
fn detect_arguments() {
    assert!(matches!(parse_detect_args(&strs(&["a", "-h"])), Ok(DetectAction::Help)));
    assert!(matches!(parse_detect_args(&strs(&["--version"])), Ok(DetectAction::Version)));
    match parse_detect_args(&strs(&["-0", "a", "--files-from", "list", "b"])) {
        Ok(DetectAction::Run(a)) => {
            assert!(a.nul);
            assert_eq!(a.files_from.as_deref(), Some("list"));
            assert_eq!(a.paths, strs(&["a", "b"]));
        },
        _ => panic!("expected run"),
    }
    match parse_detect_args(&strs(&["--files-from=-"])) {
        Ok(DetectAction::Run(a)) => assert_eq!(a.files_from.as_deref(), Some("-")),
        _ => panic!("expected run"),
    }
    match parse_detect_args(&strs(&["x", "--files-from"])) {
        Err(e) => assert_eq!(e, "zhhz detect: --files-from requires an argument"),
        _ => panic!("expected an error"),
    }
}

#[test]
fn detect_targets_default_to_stdin() {
    assert_eq!(detect_targets(vec![]), strs(&["-"]));
    assert_eq!(detect_targets(strs(&["a", "-"])), strs(&["a", "-"]));
}
