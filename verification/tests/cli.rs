use zhhz::cli::{parse_args, resolve_config, Action, Cli, ModeFlag};
use zhhz::engine::Config;

fn argv(args: &[&str]) -> Vec<String> {
    let mut v = vec!["zhhz".to_string()];
    v.extend(args.iter().map(|s| s.to_string()));
    v
}

fn run(args: &[&str]) -> Cli {
    match parse_args(argv(args)) {
        Ok(Action::Run(c)) => c,
        _ => panic!("expected a run action"),
    }
}

#[test]
fn help_and_version() {
    assert!(matches!(parse_args(argv(&["-h"])), Ok(Action::Help)));
    assert!(matches!(parse_args(argv(&["--version", "-h"])), Ok(Action::Version)));
}

#[test]
fn config_and_files() {
    let c = run(&["-c", "t2s", "a.txt", "-", "--dict", "d1", "--dict=d2"]);
    assert_eq!(c.config.as_deref(), Some("t2s"));
    assert_eq!(c.files, vec!["a.txt".to_string(), "-".to_string()]);
    assert_eq!(c.dicts, vec!["d1".to_string(), "d2".to_string()]);
    assert_eq!(resolve_config(&c).unwrap(), Config::T2s);
}

#[test]
fn flags() {
    let c = run(&["-i", "--ls", "--auto", "-0", "--files-from", "list.txt"]);
    assert!(c.in_place && c.list && c.auto && c.null);
    assert_eq!(c.files_from.as_deref(), Some("list.txt"));
    assert_eq!(c.mode_flag, ModeFlag::Default);
}

#[test]
fn ngram_defaults_to_trigram() {
    assert_eq!(run(&["--ngram", "m.arpa"]).mode_flag, ModeFlag::Trigram);
    assert_eq!(run(&["--ngram=m.arpa", "--bigram"]).mode_flag, ModeFlag::Bigram);
    assert_eq!(run(&["--fast"]).mode_flag, ModeFlag::Fast);
}

#[test]
fn double_dash_takes_rest_as_files() {
    let c = run(&["--", "-h", "--config"]);
    assert_eq!(c.files, vec!["-h".to_string(), "--config".to_string()]);
}

#[test]
fn errors() {
    assert_eq!(parse_args(argv(&["--config"])).err().unwrap(), "--config requires a value");
    assert_eq!(parse_args(argv(&["-c"])).err().unwrap(), "--config requires a value");
    assert_eq!(parse_args(argv(&["--to="])).is_ok(), false);
    assert_eq!(
        parse_args(argv(&["--bogus"])).err().unwrap(),
        "unknown option: --bogus\nsee `zhhz --help`"
    );
    assert_eq!(
        parse_args(argv(&["-x"])).err().unwrap(),
        "unknown option: -x\nsee `zhhz --help`"
    );
    assert_eq!(
        parse_args(argv(&["--auto=yes"])).err().unwrap(),
        "option --auto does not take a value"
    );
    assert_eq!(
        parse_args(argv(&["--from", "cn-s"])).err().unwrap(),
        "--from and --to must be used together"
    );
    assert_eq!(
        parse_args(argv(&["--from", "cn-s", "--to", "cn-t", "-c", "s2t"])).err().unwrap(),
        "--config is mutually exclusive with --from/--to"
    );
    assert_eq!(parse_args(argv(&["--dict"])).err().unwrap(), "--dict requires a value");
}

#[test]
fn resolve_config_paths() {
    assert_eq!(resolve_config(&run(&[])).unwrap(), Config::S2t);
    assert_eq!(resolve_config(&run(&["--from", "cn-s", "--to", "cn-tw"])).unwrap(), Config::S2twp);
    assert_eq!(
        resolve_config(&run(&["--from", "xx", "--to", "cn-tw"])).unwrap_err(),
        "invalid --from: unknown region 'xx'. Valid: cn-s, cn-t, cn-tw, cn-hk, jp-t, jp-n"
    );
    assert_eq!(
        resolve_config(&run(&["--from=cn-s", "--to=cn-s"])).unwrap_err(),
        "no conversion needed: cn-s -> cn-s\nhint: try an intermediate (e.g. cn-s -> cn-t -> cn-s)"
    );
    assert!(resolve_config(&run(&["-c", "nope"]))
        .unwrap_err()
        .starts_with("invalid --config: unknown config 'nope'"));
}

use zhhz::cli::{auto_pipeline, detect_subcommand, listing, ngram_request};
use zhhz::engine::{NgramMode, Region};

#[test]
fn detect_subcommand_routing() {
    assert_eq!(
        detect_subcommand(&argv(&["-0", "detect", "a", "detect"])),
        Some(vec!["-0".to_string(), "a".to_string(), "detect".to_string()])
    );
    assert_eq!(detect_subcommand(&argv(&["-c", "s2t"])), None);
    assert_eq!(detect_subcommand(&vec!["detect".to_string()]), None);
}

#[test]
fn ngram_requests() {
    assert!(matches!(ngram_request(&run(&["--fast", "--ngram", "m.arpa"])), Ok(None)));
    assert!(matches!(ngram_request(&run(&[])), Ok(None)));
    match ngram_request(&run(&["--ngram", "m.arpa"])) {
        Ok(Some((p, m))) => {
            assert_eq!(p, "m.arpa");
            assert_eq!(m, NgramMode::Trigram);
        },
        _ => panic!("expected a request"),
    }
    match ngram_request(&run(&["--bigram"])) {
        Err(e) => assert_eq!(e, "--bigram requires --ngram <arpa-file>"),
        _ => panic!("expected an error"),
    }
}

#[test]
fn auto_pipelines() {
    assert_eq!(auto_pipeline(Some(Region::JpN)), vec![Config::Jp2t, Config::T2s]);
    assert_eq!(auto_pipeline(Some(Region::CnTw)), vec![Config::Tw2sp]);
    assert_eq!(auto_pipeline(Some(Region::CnS)), vec![]);
    assert_eq!(auto_pipeline(None), vec![]);
}

#[test]
fn list_text() {
    let t = listing();
    assert!(t.starts_with("REGION  DESCRIPTION\ncn-s    Simplified Chinese (mainland)\n"));
    assert!(t.contains("\nFROM    TO      OPENCC CONFIG\ncn-s    cn-t    s2t\n"));
    assert!(t.ends_with("cn-t    jp-n    t2jp\n"));
    assert_eq!(t.lines().count(), 1 + 6 + 1 + 1 + 14);
}

#[test]
fn short_region_options() {
    let c = run(&["-f", "cn-s", "-t", "cn-tw"]);
    assert_eq!(c.from, Some("cn-s".to_string()));
    assert_eq!(c.to, Some("cn-tw".to_string()));
    assert_eq!(parse_args(argv(&["-f"])).err().unwrap(), "--from requires a value");
    assert_eq!(parse_args(argv(&["-t", "cn-t"])).err().unwrap(), "--from and --to must be used together");
}

#[test]
fn mode_flags_are_exclusive() {
    let msg = "--fast, --bigram and --trigram are mutually exclusive";
    assert_eq!(parse_args(argv(&["--fast", "--bigram"])).err().unwrap(), msg);
    assert_eq!(parse_args(argv(&["--trigram", "x", "--fast"])).err().unwrap(), msg);
    assert_eq!(parse_args(argv(&["--bigram", "--ngram", "m", "--trigram"])).err().unwrap(), msg);
    assert_eq!(run(&["--bigram", "--bigram"]).mode_flag, ModeFlag::Bigram);
    assert!(matches!(parse_args(argv(&["--fast", "--bigram", "-h"])), Ok(Action::Help)));
    assert_eq!(
        parse_args(argv(&["--fast", "--bigram", "--from", "cn-s"])).err().unwrap(),
        "--from and --to must be used together"
    );
}

#[test]
fn no_detect_clears_auto() {
    assert!(!run(&["--auto", "--no-detect"]).auto);
    assert!(run(&["--no-detect", "--auto"]).auto);
}

#[test]
fn detect_routes_on_first_non_flag_only() {
    assert_eq!(detect_subcommand(&argv(&["notes.txt", "detect"])), None);
    assert_eq!(
        detect_subcommand(&argv(&["detect", "a.txt"])),
        Some(vec!["a.txt".to_string()])
    );
    assert_eq!(detect_subcommand(&argv(&["-", "detect"])), None);
}

#[test]
fn final_checks_come_in_order() {
    let from_to = "--from and --to must be used together";
    let config = "--config is mutually exclusive with --from/--to";
    let modes = "--fast, --bigram and --trigram are mutually exclusive";
    assert_eq!(parse_args(argv(&["--from", "cn-s"])).err().unwrap(), from_to);
    assert_eq!(parse_args(argv(&["-c", "s2t", "--fast", "--trigram", "-f", "cn-s"])).err().unwrap(), from_to);
    assert_eq!(parse_args(argv(&["--config=s2t", "--bigram", "--fast", "-f", "cn-s", "--to=cn-t"])).err().unwrap(), config);
    assert_eq!(parse_args(argv(&["-c", "s2t", "--bigram", "--fast"])).err().unwrap(), modes);
    assert!(matches!(parse_args(argv(&["-f", "cn-s", "--to", "cn-t", "--trigram"])), Ok(Action::Run(_))));
}
