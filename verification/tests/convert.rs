use zhhz::config::{resolve, resolve_root, Json, ResolvedConfig};
use zhhz::derive::reverse_dict;
use zhhz::dict::Dict;
use zhhz::engine::{choose_candidate, Converter, NgramMode};
use zhhz::ngram::{arpa_entries, NgramModel};

fn s(x: &str) -> Json {
    Json::Str(x.to_string())
}

fn obj(members: Vec<(&str, Json)>) -> Json {
    Json::Object(members.into_iter().map(|(k, v)| (k.to_string(), v)).collect())
}

fn file(name: &str) -> Json {
    obj(vec![("file", s(name)), ("type", s("ocd2"))])
}

fn s2t_like() -> Json {
    obj(vec![
        ("name", s("test")),
        ("segmentation", obj(vec![("dict", file("STPhrases.ocd2")), ("type", s("mmseg"))])),
        (
            "conversion_chain",
            Json::Array(vec![obj(vec![(
                "dict",
                obj(vec![
                    ("dicts", Json::Array(vec![file("STPhrases.ocd2"), file("STCharacters.ocd2")])),
                    ("type", s("group")),
                ]),
            )])]),
        ),
    ])
}

fn texts() -> Vec<(String, String)> {
    vec![
        ("STPhrases".to_string(), "计算\t計算\n软件\t軟件\n".to_string()),
        (
            "STCharacters".to_string(),
            "汉\t漢\n字\t字\n机\t機 机\n买\t買\n软\t軟\n件\t件\n体\t體\n繁\t繁\n".to_string(),
        ),
    ]
}

fn conv(custom: &[(String, String)], text: &str) -> String {
    let cfg = resolve_root(&s2t_like(), custom, &texts()).unwrap();
    Converter::from_resolved(cfg).convert(text)
}

#[test]
fn s2t_like_conversion() {
    assert_eq!(conv(&[], "计算机"), "計算機");
    assert_eq!(conv(&[], "汉字计算机软件繁体"), "漢字計算機軟件繁體");
}

#[test]
fn custom_words_override() {
    assert_eq!(conv(&[], "软件"), "軟件");
    let custom = [("软件".to_string(), "軟體".to_string())];
    assert_eq!(conv(&custom, "软件"), "軟體");
    assert_eq!(conv(&custom, "买软件"), "買軟體");
}

#[test]
fn non_chinese_passes_through() {
    assert_eq!(conv(&[], "hello 汉字 world 123"), "hello 漢字 world 123");
}

#[test]
fn empty_input() {
    assert_eq!(conv(&[], ""), "");
}

#[test]
fn ascii_keys_are_looked_up() {
    // Every position of a segment is looked up, ASCII ones included.
    let custom = [("a".to_string(), "A".to_string())];
    assert_eq!(conv(&custom, "ab"), "Ab");
    let cfg = ResolvedConfig {
        segmentation: None,
        chain: vec![vec![Dict::from_entries(&custom)]],
    };
    let c = Converter::from_resolved(cfg);
    assert_eq!(c.convert("ba"), "bA");
    assert_eq!(c.convert("汉a"), "汉A");
}

#[test]
fn ngram_mode_looks_up_ascii_too() {
    let custom = [("a".to_string(), "A".to_string())];
    let cfg = resolve_root(&s2t_like(), &custom, &texts()).unwrap();
    let c = Converter::from_resolved(cfg).with_ngram(NgramModel::default(), NgramMode::Bigram);
    assert_eq!(c.convert("ab"), "Ab");
    assert_eq!(c.convert("汉字计算机"), "漢字計算機");
    let cfg = ResolvedConfig {
        segmentation: None,
        chain: vec![vec![Dict::from_entries(&custom)]],
    };
    let c = Converter::from_resolved(cfg).with_ngram(NgramModel::new(), NgramMode::Trigram);
    assert_eq!(c.convert("ba"), "bA");
}

#[test]
fn multi_stage_chain() {
    let cfg = ResolvedConfig {
        segmentation: None,
        chain: vec![
            vec![Dict::from_entries(&[("a".to_string(), "b".to_string())])],
            vec![Dict::from_entries(&[("b".to_string(), "c".to_string())])],
        ],
    };
    let c = Converter::from_resolved(cfg);
    assert_eq!(c.convert("汉a"), "汉c");
}

#[test]
fn resolve_errors() {
    let no_chain = obj(vec![("name", s("x"))]);
    assert_eq!(
        resolve_root(&no_chain, &[], &texts()).err().unwrap(),
        "conversion_chain is missing or not an array"
    );
    let bad_seg = obj(vec![("segmentation", obj(vec![]))]);
    assert_eq!(resolve_root(&bad_seg, &[], &texts()).err().unwrap(), "segmentation.dict is missing");
    let stage_no_dict = obj(vec![("conversion_chain", Json::Array(vec![obj(vec![])]))]);
    assert_eq!(
        resolve_root(&stage_no_dict, &[], &texts()).err().unwrap(),
        "a conversion_chain stage is missing its dict"
    );
    let unknown = obj(vec![("conversion_chain", Json::Array(vec![obj(vec![("dict", file("Nope.ocd2"))])]))]);
    assert_eq!(
        resolve_root(&unknown, &[], &texts()).err().unwrap(),
        "unknown embedded dictionary: Nope"
    );
    let weird = obj(vec![(
        "conversion_chain",
        Json::Array(vec![obj(vec![("dict", obj(vec![("type", s("fst"))]))])]),
    )]);
    assert_eq!(resolve_root(&weird, &[], &texts()).err().unwrap(), "unsupported dictionary type: fst");
    let no_file = obj(vec![(
        "conversion_chain",
        Json::Array(vec![obj(vec![("dict", obj(vec![("type", s("text"))]))])]),
    )]);
    assert_eq!(
        resolve_root(&no_file, &[], &texts()).err().unwrap(),
        "file-based dict is missing its file name"
    );
    let bad_group = obj(vec![(
        "conversion_chain",
        Json::Array(vec![obj(vec![("dict", obj(vec![("type", s("group"))]))])]),
    )]);
    assert_eq!(
        resolve_root(&bad_group, &[], &texts()).err().unwrap(),
        "group.dicts is missing or not an array"
    );
    let bad_inline = obj(vec![(
        "conversion_chain",
        Json::Array(vec![obj(vec![("dict", obj(vec![("type", s("inline"))]))])]),
    )]);
    assert_eq!(
        resolve_root(&bad_inline, &[], &texts()).err().unwrap(),
        "inline.entries is missing or not an object"
    );
}

#[test]
fn inline_and_nested_groups() {
    let inline = obj(vec![
        ("type", s("inline")),
        ("entries", obj(vec![("甲", s(" 乙 丙")), ("丁", Json::Null)])),
    ]);
    let nested = obj(vec![
        ("type", s("group")),
        ("dicts", Json::Array(vec![inline, file("STCharacters.txt")])),
    ]);
    let root = obj(vec![("conversion_chain", Json::Array(vec![obj(vec![("dict", nested)])]))]);
    let cfg = resolve_root(&root, &[], &texts()).unwrap();
    let c = Converter::from_resolved(cfg);
    assert_eq!(c.convert("甲汉丁"), "乙漢");
}

// Miniature OpenCC data: the configs shaped as OpenCC's, over dictionaries
// that hold only the entries these texts pass through.

fn group(names: &[&str]) -> Json {
    obj(vec![
        ("type", s("group")),
        ("dicts", Json::Array(names.iter().map(|n| file(&format!("{n}.ocd2"))).collect())),
    ])
}

fn config(seg: &str, stages: Vec<Json>) -> Json {
    obj(vec![
        ("segmentation", obj(vec![("type", s("mmseg")), ("dict", file(&format!("{seg}.ocd2")))])),
        (
            "conversion_chain",
            Json::Array(stages.into_iter().map(|d| obj(vec![("dict", d)])).collect()),
        ),
    ])
}

fn mini_data() -> Vec<(String, String)> {
    let jp_chars = "万\t萬\n与\t與\n";
    let hk_variants = "僞\t偽\n";
    let sources = [
        ("STPhrases", "计算\t計算\n"),
        (
            "STCharacters",
            "汉\t漢\n字\t字\n计\t計\n算\t算\n机\t機 机\n软\t軟\n件\t件\n繁\t繁\n体\t體 体\n买\t買\n信\t信\n息\t息\n标\t標\n",
        ),
        ("TSPhrases", "計算\t计算\n"),
        ("TSCharacters", "漢\t汉\n字\t字\n計\t计\n算\t算\n機\t机\n軟\t软\n件\t件\n繁\t繁\n體\t体\n"),
        ("TWPhrases", "信息\t資訊\n"),
        ("TWVariants", "裏\t裡\n"),
        ("HKVariants", hk_variants),
        ("HKVariantsRevPhrases", "# phrases\n"),
        ("JPShinjitaiPhrases", "# phrases\n"),
        ("JPShinjitaiCharacters", jp_chars),
    ];
    let mut out: Vec<(String, String)> = sources.iter().map(|(n, t)| (n.to_string(), t.to_string())).collect();
    out.push(("HKVariantsRev".to_string(), reverse_dict(hk_variants)));
    out.push(("JPShinjitaiCharactersRev".to_string(), reverse_dict(jp_chars)));
    out
}

fn mini_config(name: &str) -> Json {
    match name {
        "s2t" => config("STPhrases", vec![group(&["STPhrases", "STCharacters"])]),
        "t2s" => config("TSPhrases", vec![group(&["TSPhrases", "TSCharacters"])]),
        "s2twp" => config(
            "STPhrases",
            vec![group(&["STPhrases", "STCharacters"]), group(&["TWPhrases"]), group(&["TWVariants"])],
        ),
        "s2hk" => config("STPhrases", vec![group(&["STPhrases", "STCharacters"]), group(&["HKVariants"])]),
        "hk2t" => config("HKVariantsRevPhrases", vec![group(&["HKVariantsRevPhrases", "HKVariantsRev"])]),
        "jp2t" => config("JPShinjitaiPhrases", vec![group(&["JPShinjitaiPhrases", "JPShinjitaiCharacters"])]),
        "t2jp" => config("JPShinjitaiCharactersRev", vec![group(&["JPShinjitaiCharactersRev"])]),
        _ => panic!("no such config"),
    }
}

fn mini(name: &str) -> Converter {
    Converter::from_resolved(resolve_root(&mini_config(name), &[], &mini_data()).unwrap())
}

fn mini_custom(name: &str, custom: &[(String, String)]) -> Converter {
    Converter::from_resolved(resolve_root(&mini_config(name), custom, &mini_data()).unwrap())
}

#[test]
fn s2t_basic() {
    let c = mini("s2t");
    assert_eq!(c.convert("计算机"), "計算機");
    assert_eq!(c.convert("汉字"), "漢字");
    assert_eq!(c.convert("汉字计算机软件繁体"), "漢字計算機軟件繁體");
}

#[test]
fn t2s_basic() {
    let c = mini("t2s");
    assert_eq!(c.convert("漢字"), "汉字");
    assert_eq!(c.convert("計算機"), "计算机");
}

#[test]
fn s2twp_regional_phrase() {
    assert_eq!(mini("s2twp").convert("信息"), "資訊");
}

#[test]
fn japanese_shinjitai() {
    assert_eq!(mini("jp2t").convert("万与"), "萬與");
    assert_eq!(mini("t2jp").convert("萬與"), "万与");
}

#[test]
fn s2t_then_t2s_roundtrip_on_phrases() {
    let s = "汉字计算机软件繁体";
    let t = mini("s2t").convert(s);
    assert_eq!(t, "漢字計算機軟件繁體");
    assert_eq!(mini("t2s").convert(&t), s);
}

#[test]
fn s2twp_applies_taiwan_phrases() {
    assert_eq!(mini("s2twp").convert("信息"), "資訊");
}

#[test]
fn hk_directions() {
    let s = "鼠标";
    let hk = mini("s2hk").convert(s);
    assert_eq!(mini("hk2t").convert(&hk), mini("s2t").convert(s));
}

#[test]
fn japanese_new_old_roundtrip() {
    assert_eq!(mini("jp2t").convert("万与"), "萬與");
    assert_eq!(mini("t2jp").convert("萬與"), "万与");
}

#[test]
fn custom_words_override_builtin() {
    assert_eq!(mini("s2t").convert("软件"), "軟件");
    let c = mini_custom("s2t", &[("软件".into(), "軟體".into())]);
    assert_eq!(c.convert("买软件"), "買軟體");
}

// Context cases for 出/齣, on miniature s2t data holding the entries these
// texts pass through, and a bigram model that knows 這齣.

fn context_data() -> Vec<(String, String)> {
    vec![
        (
            "STPhrases".to_string(),
            "一出好戏\t一齣好戲\n出戏\t出戲 齣戲\n出了\t出了\n机场\t機場\n戏院\t戲院\n出去\t出去\n问题\t問題\n电影\t電影\n"
                .to_string(),
        ),
        (
            "STCharacters".to_string(),
            "一\t一\n出\t出 齣\n机\t機 机\n场\t場\n就\t就\n看\t看\n到\t到\n好\t好\n戏\t戲 戯\n院\t院\n他\t他\n去\t去\n了\t了 瞭\n问\t問\n题\t題\n门\t門\n这\t這\n剧\t劇\n电\t電\n影\t影\n真\t真\n半\t半\n"
                .to_string(),
        ),
    ]
}

fn context_model() -> NgramModel {
    let arpa = "\\data\\\nngram 1=3\nngram 2=1\n\n\\1-grams:\n-1.0 這\n-1.5 出\n-2.0 齣\n\n\\2-grams:\n-1.63 這 齣\n\n\\end\\\n";
    let entries = arpa_entries(arpa);
    let bits: Vec<Option<u64>> = entries.iter().map(|e| e.logprob.parse::<f64>().ok().map(f64::to_bits)).collect();
    NgramModel::from_entries(&entries, &bits)
}

fn context_s2t() -> Converter {
    let root = config("STPhrases", vec![group(&["STPhrases", "STCharacters"])]);
    Converter::from_resolved(resolve_root(&root, &[], &context_data()).unwrap())
}

fn context_s2t_bigram() -> Converter {
    context_s2t().with_ngram(context_model(), NgramMode::Bigram)
}

#[test]
fn case_depart_airport_then_good_show() {
    assert_eq!(context_s2t().convert("一出机场就看到一出好戏"), "一出機場就看到一齣好戲");
}

#[test]
fn case_depart_theater_then_good_show() {
    assert_eq!(context_s2t().convert("一出戏院就看到一出好戏"), "一出戲院就看到一齣好戲");
}

#[test]
fn case_chu_as_verb_depart() {
    let c = context_s2t();
    assert_eq!(c.convert("他出去了"), "他出去了");
    assert_eq!(c.convert("看出问题"), "看出問題");
    assert_eq!(c.convert("出门"), "出門");
}

#[test]
fn ngram_zhe_chu_xi() {
    assert_eq!(context_s2t_bigram().convert("这出戏真好看"), "這齣戲真好看");
}

#[test]
fn ngram_zhe_chu_ju() {
    assert_eq!(context_s2t_bigram().convert("这出剧"), "這齣劇");
}

#[test]
fn ngram_zhe_chu_dianying() {
    assert_eq!(context_s2t_bigram().convert("这出电影"), "這齣電影");
}

#[test]
fn known_limitation_xi_chu_le_yiban() {
    assert_eq!(context_s2t().convert("戏出了一半"), "戲出了一半");
    assert_eq!(context_s2t_bigram().convert("戏出了一半"), "戲出了一半");
}

#[test]
fn without_a_model_the_default_value_is_kept() {
    assert_eq!(context_s2t().convert("这出戏真好看"), "這出戲真好看");
    assert_eq!(context_s2t().convert("这出剧"), "這出劇");
}

#[test]
fn trigram_mode_reads_two_characters_of_context() {
    // The trigram context "這" is the tail within six bytes of "這": one
    // character, so the bigram 這 齣 decides here too.
    let c = context_s2t().with_ngram(context_model(), NgramMode::Trigram);
    assert_eq!(c.convert("这出剧"), "這齣劇");
    // After two written characters the context is both of them, which the
    // model does not know: the first candidate stays.
    assert_eq!(c.convert("真这出剧"), "真這出劇");
}

#[test]
fn choosing_among_candidates() {
    let m = context_model();
    let chars = |s: &str| -> Vec<char> { s.chars().collect() };
    let cands = vec!["出戲".to_string(), "齣戲".to_string()];
    let none: Vec<char> = Vec::new();
    // Nothing before: the first distinct first character.
    assert_eq!(choose_candidate(&m, NgramMode::Bigram, &none, &none, &cands), chars("出戲"));
    // After 這 the model prefers 齣, spliced with the rest of 齣戲.
    assert_eq!(choose_candidate(&m, NgramMode::Bigram, &none, &chars("漢這"), &cands), chars("齣戲"));
    // With nothing written, the previous text gives the context.
    assert_eq!(choose_candidate(&m, NgramMode::Bigram, &chars("這"), &none, &cands), chars("齣戲"));
    // Values that all start alike, or a single value: the default value.
    let alike = vec!["出戲".to_string(), "出戯".to_string()];
    assert_eq!(choose_candidate(&m, NgramMode::Bigram, &none, &chars("這"), &alike), chars("出戲"));
    let one = vec!["齣".to_string()];
    assert_eq!(choose_candidate(&m, NgramMode::Bigram, &none, &chars("這"), &one), chars("齣"));
}

#[test]
fn config_text_is_parsed() {
    let json = r#"{"name": "t", "segmentation": {"type": "mmseg", "dict": {"type": "ocd2", "file": "STPhrases.ocd2"}},
        "conversion_chain": [{"dict": {"type": "group", "dicts": [
            {"type": "ocd2", "file": "STPhrases.ocd2"}, {"type": "ocd2", "file": "STCharacters.ocd2"}]}}]}"#;
    let c = Converter::from_resolved(resolve(json, &[], &texts()).unwrap());
    assert_eq!(c.convert("汉字计算机"), "漢字計算機");
    let inline = r#"{"conversion_chain": [{"dict": {"type": "inline", "entries": {"甲": "乙 丙", "n": 1}}}]}"#;
    let c = Converter::from_resolved(resolve(inline, &[], &texts()).unwrap());
    assert_eq!(c.convert("甲n"), "乙");
}

#[test]
fn config_text_errors() {
    let e = resolve("{ not json", &[], &texts()).err().unwrap();
    assert!(e.starts_with("invalid config JSON: "));
    assert!(e.len() > "invalid config JSON: ".len());
    assert_eq!(resolve("{}", &[], &texts()).err().unwrap(), "conversion_chain is missing or not an array");
    assert_eq!(
        resolve(r#"{"conversion_chain": [{"dict": {"type": "fst"}}]}"#, &[], &texts()).err().unwrap(),
        "unsupported dictionary type: fst"
    );
}

#[test]
fn resolved_dictionaries_keep_every_value() {
    // 机 has the values 機 and 机: with a model that prefers 机 after 漢,
    // the alternative is chosen, which only a dictionary that kept it can do.
    let arpa = "\\data\\\nngram 1=2\nngram 2=1\n\n\\1-grams:\n-1.0 漢\n-1.0 机\n\n\\2-grams:\n-0.5 漢 机\n\n\\end\\\n";
    let entries = arpa_entries(arpa);
    let bits: Vec<Option<u64>> = entries.iter().map(|e| e.logprob.parse::<f64>().ok().map(f64::to_bits)).collect();
    let model = NgramModel::from_entries(&entries, &bits);
    let root = config("STCharacters", vec![group(&["STCharacters"])]);
    let c = Converter::from_resolved(resolve_root(&root, &[], &texts()).unwrap()).with_ngram(model, NgramMode::Bigram);
    assert_eq!(c.convert("汉机"), "漢机");
}
