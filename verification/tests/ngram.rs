use zhhz::ngram::{arpa_entries, gt_bits, NgramModel, NEG_INFINITY_BITS};

/// Reads an ARPA text the way the command line does: the library splits it
/// into entries, and each log-probability token is read as an `f64`.
fn parse(text: &str) -> NgramModel {
    let entries = arpa_entries(text);
    let bits: Vec<Option<u64>> = entries
        .iter()
        .map(|e| e.logprob.parse::<f64>().ok().map(f64::to_bits))
        .collect();
    NgramModel::from_entries(&entries, &bits)
}

fn words(ws: &[&str]) -> Vec<String> {
    ws.iter().map(|w| w.to_string()).collect()
}

fn make_test_model() -> NgramModel {
    let arpa = "\\data\\
ngram 1=3
ngram 2=4

\\1-grams:
-1.0  齣
-1.5  出
-1.0  好

\\2-grams:
-2.0  齣 好
-3.0  出 好
-2.5  齣 齣
-2.0  齣 出

\\end\\";
    parse(arpa)
}

#[test]
fn parses_unigrams_and_bigrams() {
    let m = make_test_model();
    assert!(m.logprob(&words(&["齣", "好"])).is_some());
    assert!(m.logprob(&words(&["齣", "齣"])).is_some());
}

#[test]
fn disambiguate_picks_highest_prob() {
    let m = make_test_model();
    // log P(齣|齣) = -2.5; log P(出|齣) = -2.0; 出 wins
    let pick = m.disambiguate(Some("齣"), &["齣".to_string(), "出".to_string()]);
    assert_eq!(pick, Some("出".to_string()));
}

#[test]
fn disambiguate_falls_back_to_first_when_all_missing() {
    let m = NgramModel::default();
    // Empty model — every candidate is missing, fall back to first
    let pick = m.disambiguate(Some("X"), &["齣".to_string(), "出".to_string()]);
    assert_eq!(pick, Some("齣".to_string()));
}

#[test]
fn stored_values_are_the_parsed_numbers() {
    let m = make_test_model();
    assert_eq!(m.logprob(&words(&["出"])), Some((-1.5f64).to_bits()));
    assert_eq!(m.logprob(&words(&["齣", "出"])), Some((-2.0f64).to_bits()));
    assert_eq!(m.logprob(&words(&["出", "齣"])), None);
    assert_eq!(m.bigram_count(), 4);
}

#[test]
fn ties_go_to_the_first_candidate() {
    let m = make_test_model();
    // P(好|齣) = P(出|齣) = -2.0
    let pick = m.disambiguate(Some("齣"), &["好".to_string(), "出".to_string()]);
    assert_eq!(pick, Some("好".to_string()));
    let pick = m.disambiguate(Some("齣"), &["出".to_string(), "好".to_string()]);
    assert_eq!(pick, Some("出".to_string()));
}

#[test]
fn missing_bigram_loses_to_any_known_one() {
    let m = make_test_model();
    let pick = m.disambiguate(Some("齣"), &["X".to_string(), "齣".to_string()]);
    assert_eq!(pick, Some("齣".to_string()));
}

#[test]
fn no_candidates_and_one_candidate() {
    let m = make_test_model();
    assert_eq!(m.disambiguate(Some("齣"), &[]), None);
    assert_eq!(m.disambiguate(None, &["Z".to_string()]), Some("Z".to_string()));
}

#[test]
fn sentence_start_context() {
    let m = parse("\\2-grams:\n-3.0 <s> 出\n-1.0 <s> 齣\n");
    let pick = m.disambiguate(None, &["出".to_string(), "齣".to_string()]);
    assert_eq!(pick, Some("齣".to_string()));
}

#[test]
fn later_duplicate_replaces_earlier_and_counts_once() {
    let m = parse("\\2-grams:\n-1.0 a b\n-2.0 a c\n-3.0 a b\n");
    assert_eq!(m.logprob(&words(&["a", "b"])), Some((-3.0f64).to_bits()));
    assert_eq!(m.bigram_count(), 2);
}

#[test]
fn arity_rules_per_section() {
    let text = "\\1-grams:\n-1 x\n-1 y 0.5\n-1 z 0.5 9\n\\2-grams:\n-2 a b\n-2 c d 0.1\n-2 e\n\\3-grams:\n-3 p q r\n-3 s t u 0.1\n\\4-grams:\n-4 w x y z\n";
    let es = arpa_entries(text);
    let got: Vec<(Vec<String>, String)> = es.iter().map(|e| (e.words.clone(), e.logprob.clone())).collect();
    assert_eq!(
        got,
        vec![
            (words(&["x"]), "-1".to_string()),
            (words(&["y"]), "-1".to_string()),
            (words(&["a", "b"]), "-2".to_string()),
            (words(&["c", "d"]), "-2".to_string()),
            (words(&["p", "q", "r"]), "-3".to_string()),
        ]
    );
}

#[test]
fn comments_blank_lines_and_outside_sections_are_skipped() {
    let text = "# header\n-1 outside\n\n\\1-grams:  \r\n# -1 commented\n   \n-1\tkept  \r\n";
    let es = arpa_entries(text);
    assert_eq!(es.len(), 1);
    assert_eq!(es[0].words, words(&["kept"]));
}

#[test]
fn unparsable_probability_scores_negative_infinity() {
    let m = parse("\\1-grams:\nabc word\n");
    assert_eq!(m.logprob(&words(&["word"])), Some(NEG_INFINITY_BITS));
    assert_eq!(NEG_INFINITY_BITS, f64::NEG_INFINITY.to_bits());
}

#[test]
fn nan_is_never_greater_and_never_beaten() {
    let nan = f64::NAN.to_bits();
    let one = 1.0f64.to_bits();
    assert!(!gt_bits(nan, one));
    assert!(!gt_bits(one, nan));
    let m = parse("\\2-grams:\nNaN p a\n0.0 p b\n");
    let pick = m.disambiguate(Some("p"), &["a".to_string(), "b".to_string()]);
    assert_eq!(pick, Some("a".to_string()));
}

#[test]
fn bit_comparison_follows_f64() {
    let vals = [f64::NEG_INFINITY, -2.5, -1.0, -0.0, 0.0, 1e-300, 3.0, f64::INFINITY];
    for a in vals {
        for b in vals {
            assert_eq!(gt_bits(a.to_bits(), b.to_bits()), a > b, "{} > {}", a, b);
        }
    }
}

#[test]
fn clone_model_keeps_the_tables() {
    let m = make_test_model();
    let c = m.clone_model();
    assert_eq!(c.bigram_count(), m.bigram_count());
    assert_eq!(c.logprob(&words(&["齣", "好"])), m.logprob(&words(&["齣", "好"])));
    assert_eq!(c.grams().len(), m.grams().len());
}

#[test]
fn indexed_lookup_keeps_the_last_entry() {
    let arpa = "\\data\\\n\\1-grams:\n-1.0 甲\n-2.0 乙\n\n\\2-grams:\n-3.0 甲 乙\n-4.0 乙 甲\n-5.0 甲 乙\n\n\\end\\\n";
    let m = parse(arpa);
    assert_eq!(m.logprob(&words(&["甲", "乙"])), Some((-5.0f64).to_bits()));
    assert_eq!(m.logprob(&words(&["乙", "甲"])), Some((-4.0f64).to_bits()));
    assert_eq!(m.logprob(&words(&["甲"])), Some((-1.0f64).to_bits()));
    assert_eq!(m.logprob(&words(&["甲", "甲"])), None);
    assert_eq!(m.bigram_count(), 2);
    let c = m.clone_model();
    assert_eq!(c.logprob(&words(&["甲", "乙"])), Some((-5.0f64).to_bits()));
    assert_eq!(c.bigram_count(), 2);
}
