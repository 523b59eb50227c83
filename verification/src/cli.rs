//! Command-line argument parsing for `zhhz`.
//!
//! Supported form:
//!
//! ```text
//! zhhz [--config <CONFIG>] [--from <R> --to <R>] [--dict <FILE>...] [--in-place] [--list] [FILE...]
//! zhhz --help | --version
//! ```

use vstd::prelude::*;
use crate::engine::{
    config_name, lemma_config_name_injective, region_code, region_pair, region_pair_config, region_pair_message, unknown_config_message,
    unknown_region_message, Config, NgramMode, Region,
};
use crate::text::{push_str_to, str_chars, str_eq, string_from_chars, strings_view};

verus! {

/// The parsed command line.
pub struct Cli {
    pub config: Option<String>,
    pub from: Option<String>,
    pub to: Option<String>,
    pub dicts: Vec<String>,
    pub in_place: bool,
    pub list: bool,
    pub files: Vec<String>,
    pub auto: bool,
    pub files_from: Option<String>,
    pub null: bool,
    pub ngram: Option<String>,
    pub mode_flag: ModeFlag,
}

/// User-facing mode selection. `Default` means: no flag given; if a
/// `--ngram` file is also given, the default is Trigram; otherwise Off.
#[derive(Copy, Clone, Debug, PartialEq, Eq, Structural)]
pub enum ModeFlag {
    Default,
    Fast,
    Bigram,
    Trigram,
}

/// What the command line asks for.
pub enum Action {
    Run(Cli),
    Help,
    Version,
}

/// The command line as values.
pub ghost struct CliModel {
    pub config: Option<Seq<char>>,
    pub from: Option<Seq<char>>,
    pub to: Option<Seq<char>>,
    pub dicts: Seq<Seq<char>>,
    pub in_place: bool,
    pub list: bool,
    pub files: Seq<Seq<char>>,
    pub auto: bool,
    pub files_from: Option<Seq<char>>,
    pub null: bool,
    pub ngram: Option<Seq<char>>,
    pub mode_flag: ModeFlag,
}

/// What the command line asks for, as values.
pub ghost enum ActionModel {
    Run(CliModel),
    Help,
    Version,
}

/// The view of an optional string.
pub open spec fn opt_view(o: Option<String>) -> Option<Seq<char>> {
    match o {
        Some(s) => Some(s@),
        None => None,
    }
}

impl View for Cli {
    type V = CliModel;

    open spec fn view(&self) -> CliModel {
        CliModel {
            config: opt_view(self.config),
            from: opt_view(self.from),
            to: opt_view(self.to),
            dicts: strings_view(self.dicts@),
            in_place: self.in_place,
            list: self.list,
            files: strings_view(self.files@),
            auto: self.auto,
            files_from: opt_view(self.files_from),
            null: self.null,
            ngram: opt_view(self.ngram),
            mode_flag: self.mode_flag,
        }
    }
}

impl View for Action {
    type V = ActionModel;

    open spec fn view(&self) -> ActionModel {
        match self {
            Action::Run(c) => ActionModel::Run(c@),
            Action::Help => ActionModel::Help,
            Action::Version => ActionModel::Version,
        }
    }
}

/// The command line before any argument is read.
pub open spec fn initial_cli() -> CliModel {
    CliModel {
        config: None,
        from: None,
        to: None,
        dicts: Seq::empty(),
        in_place: false,
        list: false,
        files: Seq::empty(),
        auto: false,
        files_from: None,
        null: false,
        ngram: None,
        mode_flag: ModeFlag::Default,
    }
}

/// The message when an option misses its value.
pub open spec fn requires_value_message(name: Seq<char>) -> Seq<char> {
    name + " requires a value"@
}

/// The message for an unknown option.
pub open spec fn unknown_option_message(arg: Seq<char>) -> Seq<char> {
    "unknown option: "@ + arg + "\nsee `zhhz --help`"@
}

/// Whether `a` starts with `--`.
pub open spec fn is_long(a: Seq<char>) -> bool {
    a.len() >= 2 && a[0] == '-' && a[1] == '-'
}

/// The options that take a value, under the name used in their message.
pub open spec fn value_option(a: Seq<char>) -> Option<Seq<char>> {
    if a == "--ngram"@ {
        Some("--ngram"@)
    } else if a == "--files-from"@ {
        Some("--files-from"@)
    } else if a == "-c"@ || a == "--config"@ {
        Some("--config"@)
    } else if a == "-f"@ || a == "--from"@ {
        Some("--from"@)
    } else if a == "-t"@ || a == "--to"@ {
        Some("--to"@)
    } else if a == "--dict"@ {
        Some("--dict"@)
    } else {
        None
    }
}

/// The command line with the value `v` of the option `name` recorded.
pub open spec fn set_value(c: CliModel, name: Seq<char>, v: Seq<char>) -> CliModel {
    if name == "--ngram"@ {
        CliModel { ngram: Some(v), ..c }
    } else if name == "--files-from"@ {
        CliModel { files_from: Some(v), ..c }
    } else if name == "--config"@ {
        CliModel { config: Some(v), ..c }
    } else if name == "--from"@ {
        CliModel { from: Some(v), ..c }
    } else if name == "--to"@ {
        CliModel { to: Some(v), ..c }
    } else {
        CliModel { dicts: c.dicts.push(v), ..c }
    }
}

/// The command line with the flag `a` recorded, for flags without a value.
pub open spec fn flag_option(c: CliModel, a: Seq<char>) -> Option<CliModel> {
    if a == "-l"@ || a == "--list"@ || a == "--ls"@ {
        Some(CliModel { list: true, ..c })
    } else if a == "-i"@ || a == "--in-place"@ {
        Some(CliModel { in_place: true, ..c })
    } else if a == "--auto"@ {
        Some(CliModel { auto: true, ..c })
    } else if a == "--no-detect"@ {
        Some(CliModel { auto: false, ..c })
    } else if a == "-0"@ || a == "--null"@ {
        Some(CliModel { null: true, ..c })
    } else if a == "--fast"@ {
        Some(CliModel { mode_flag: ModeFlag::Fast, ..c })
    } else if a == "--bigram"@ {
        Some(CliModel { mode_flag: ModeFlag::Bigram, ..c })
    } else if a == "--trigram"@ {
        Some(CliModel { mode_flag: ModeFlag::Trigram, ..c })
    } else {
        None
    }
}

/// An argument of the form `--flag[=value]` that is not one of the exact
/// spellings above: `Ok` with the updated command line, or the error.
pub open spec fn long_form(c: CliModel, a: Seq<char>) -> Result<CliModel, Seq<char>> {
    let e = crate::lines::find_char(a, '=');
    let flag = a.take(e as int);
    let val: Option<Seq<char>> = if e < a.len() {
        Some(a.skip(e + 1int))
    } else {
        None
    };
    if flag == "--config"@ || flag == "--from"@ || flag == "--to"@ || flag == "--dict"@ || flag == "--ngram"@
        || flag == "--files-from"@ {
        match val {
            Some(v) => Ok(set_value(c, flag, v)),
            None => Err(requires_value_message(flag)),
        }
    } else if flag == "--auto"@ || flag == "--in-place"@ || flag == "--list"@ {
        if val is Some {
            Err("option "@ + flag + " does not take a value"@)
        } else {
            Ok(c)
        }
    } else if flag == "-0"@ || flag == "--null"@ {
        Ok(c)
    } else {
        Err(unknown_option_message(a))
    }
}

/// The mode a mode flag selects.
pub open spec fn mode_of_flag(a: Seq<char>) -> Option<ModeFlag> {
    if a == "--fast"@ {
        Some(ModeFlag::Fast)
    } else if a == "--bigram"@ {
        Some(ModeFlag::Bigram)
    } else if a == "--trigram"@ {
        Some(ModeFlag::Trigram)
    } else {
        None
    }
}

/// Whether two different mode flags have been given, once `a` is read after
/// the command line `c`.
pub open spec fn mode_conflict(c: CliModel, conflict: bool, a: Seq<char>) -> bool {
    conflict || match mode_of_flag(a) {
        Some(m) => c.mode_flag != ModeFlag::Default && c.mode_flag != m,
        None => false,
    }
}

/// The message when two different mode flags are given.
pub open spec fn modes_exclusive_message() -> Seq<char> {
    "--fast, --bigram and --trigram are mutually exclusive"@
}

/// The checks made once every argument is read; `conflict` tells whether two
/// different mode flags were given.
pub open spec fn finish(c: CliModel, conflict: bool) -> Result<ActionModel, Seq<char>> {
    if (c.from is Some) != (c.to is Some) {
        Err("--from and --to must be used together"@)
    } else if c.config is Some && (c.from is Some || c.to is Some) {
        Err("--config is mutually exclusive with --from/--to"@)
    } else if conflict {
        Err(modes_exclusive_message())
    } else if c.mode_flag == ModeFlag::Default && c.ngram is Some {
        Ok(ActionModel::Run(CliModel { mode_flag: ModeFlag::Trigram, ..c }))
    } else {
        Ok(ActionModel::Run(c))
    }
}

/// Parse the arguments `args` (the program name already dropped), with the
/// command line `c` built so far (`conflict`: two different mode flags seen).
pub open spec fn parse_from(c: CliModel, conflict: bool, args: Seq<Seq<char>>) -> Result<ActionModel, Seq<char>>
    decreases args.len(),
{
    if args.len() == 0 {
        finish(c, conflict)
    } else {
        let a = args[0];
        let rest = args.drop_first();
        if a == "-h"@ || a == "--help"@ {
            Ok(ActionModel::Help)
        } else if a == "-V"@ || a == "--version"@ {
            Ok(ActionModel::Version)
        } else if flag_option(c, a) is Some {
            parse_from(flag_option(c, a)->Some_0, mode_conflict(c, conflict, a), rest)
        } else if value_option(a) is Some {
            let name = value_option(a)->Some_0;
            if rest.len() == 0 {
                Err(requires_value_message(name))
            } else {
                parse_from(set_value(c, name, rest[0]), conflict, rest.drop_first())
            }
        } else if a == "--"@ {
            finish(CliModel { files: c.files + rest, ..c }, conflict)
        } else if is_long(a) {
            match long_form(c, a) {
                Ok(c2) => parse_from(c2, conflict, rest),
                Err(e) => Err(e),
            }
        } else if a.len() > 1 && a[0] == '-' {
            Err(unknown_option_message(a))
        } else {
            parse_from(CliModel { files: c.files.push(a), ..c }, conflict, rest)
        }
    }
}

/// Whether a parsed command line is one the parser can hand out: `--from`
/// and `--to` together or not at all, never beside `--config`, and a model
/// path always with a mode other than the default.
pub open spec fn run_consistent(m: CliModel) -> bool {
    &&& (m.from is Some) == (m.to is Some)
    &&& !(m.config is Some && m.from is Some)
    &&& m.ngram is Some ==> m.mode_flag != ModeFlag::Default
}

/// The final checks come in a fixed order: a lone `--from` or `--to` first,
/// then `--config` beside them, then two different mode flags; a command line
/// that passes all three runs.
pub proof fn lemma_finish_order(c: CliModel, conflict: bool)
    ensures
        (c.from is Some) != (c.to is Some) ==> finish(c, conflict) == Err::<ActionModel, Seq<char>>(
            "--from and --to must be used together"@,
        ),
        (c.from is Some) == (c.to is Some) && c.config is Some && c.from is Some ==> finish(c, conflict)
            == Err::<ActionModel, Seq<char>>("--config is mutually exclusive with --from/--to"@),
        (c.from is Some) == (c.to is Some) && !(c.config is Some && c.from is Some) && conflict ==> finish(
            c,
            conflict,
        ) == Err::<ActionModel, Seq<char>>(modes_exclusive_message()),
        (c.from is Some) == (c.to is Some) && !(c.config is Some && c.from is Some) && !conflict ==> (finish(
            c,
            conflict,
        ) matches Ok(ActionModel::Run(m)) && run_consistent(m)),
{
}

proof fn lemma_parse_from_consistent(c: CliModel, conflict: bool, args: Seq<Seq<char>>)
    ensures
        parse_from(c, conflict, args) matches Ok(ActionModel::Run(m)) ==> run_consistent(m),
    decreases args.len(),
{
    if args.len() > 0 {
        let a = args[0];
        let rest = args.drop_first();
        lemma_finish_order(CliModel { files: c.files + rest, ..c }, conflict);
        if flag_option(c, a) is Some {
            lemma_parse_from_consistent(flag_option(c, a)->Some_0, mode_conflict(c, conflict, a), rest);
        }
        if value_option(a) is Some && rest.len() > 0 {
            lemma_parse_from_consistent(set_value(c, value_option(a)->Some_0, rest[0]), conflict, rest.drop_first());
        }
        match long_form(c, a) {
            Ok(c2) => lemma_parse_from_consistent(c2, conflict, rest),
            Err(_) => {},
        }
        lemma_parse_from_consistent(CliModel { files: c.files.push(a), ..c }, conflict, rest);
    } else {
        lemma_finish_order(c, conflict);
    }
}

/// Every command line the parser accepts to run is consistent: `--from` and
/// `--to` come together, neither beside `--config`, and a model path never
/// leaves the mode at its default.
pub proof fn lemma_parsed_run_consistent(argv: Seq<Seq<char>>)
    ensures
        spec_parse_args(argv) matches Ok(ActionModel::Run(m)) ==> run_consistent(m),
{
    lemma_parse_from_consistent(initial_cli(), false, program_args(argv));
}

/// The command line, and whether two different mode flags were given, with
/// which parsing `args` reaches its final checks; `None` when it stops before
/// them (on help, version or an argument's error).
pub open spec fn parse_end(c: CliModel, conflict: bool, args: Seq<Seq<char>>) -> Option<(CliModel, bool)>
    decreases args.len(),
{
    if args.len() == 0 {
        Some((c, conflict))
    } else {
        let a = args[0];
        let rest = args.drop_first();
        if a == "-h"@ || a == "--help"@ || a == "-V"@ || a == "--version"@ {
            None
        } else if flag_option(c, a) is Some {
            parse_end(flag_option(c, a)->Some_0, mode_conflict(c, conflict, a), rest)
        } else if value_option(a) is Some {
            if rest.len() == 0 {
                None
            } else {
                parse_end(set_value(c, value_option(a)->Some_0, rest[0]), conflict, rest.drop_first())
            }
        } else if a == "--"@ {
            Some((CliModel { files: c.files + rest, ..c }, conflict))
        } else if is_long(a) {
            match long_form(c, a) {
                Ok(c2) => parse_end(c2, conflict, rest),
                Err(_) => None,
            }
        } else if a.len() > 1 && a[0] == '-' {
            None
        } else {
            parse_end(CliModel { files: c.files.push(a), ..c }, conflict, rest)
        }
    }
}

/// Whether `args` give the value option `name` (as its message names it) a
/// value, as `name value` or `name=value`, before any `--`.
pub open spec fn sets_option(args: Seq<Seq<char>>, name: Seq<char>) -> bool
    decreases args.len(),
{
    if args.len() == 0 {
        false
    } else {
        let a = args[0];
        let rest = args.drop_first();
        if flag_option(initial_cli(), a) is Some {
            sets_option(rest, name)
        } else if value_option(a) is Some {
            rest.len() > 0 && (value_option(a)->Some_0 == name || sets_option(rest.drop_first(), name))
        } else if a == "--"@ {
            false
        } else {
            let e = crate::lines::find_char(a, '=');
            (is_long(a) && a.take(e as int) == name && e < a.len()) || sets_option(rest, name)
        }
    }
}

/// The names of the value options are distinct.
proof fn lemma_value_names_distinct()
    ensures
        "--ngram"@ != "--files-from"@,
        "--ngram"@ != "--config"@,
        "--ngram"@ != "--from"@,
        "--ngram"@ != "--to"@,
        "--ngram"@ != "--dict"@,
        "--files-from"@ != "--config"@,
        "--files-from"@ != "--from"@,
        "--files-from"@ != "--to"@,
        "--files-from"@ != "--dict"@,
        "--config"@ != "--from"@,
        "--config"@ != "--to"@,
        "--config"@ != "--dict"@,
        "--from"@ != "--to"@,
        "--from"@ != "--dict"@,
        "--to"@ != "--dict"@,
{
    reveal_strlit("--ngram");
    reveal_strlit("--files-from");
    reveal_strlit("--config");
    reveal_strlit("--from");
    reveal_strlit("--to");
    reveal_strlit("--dict");
    assert("--from"@[2] != "--dict"@[2]);
    assert("--ngram"@.len() != "--files-from"@.len());
    assert("--ngram"@.len() != "--config"@.len());
    assert("--ngram"@.len() != "--from"@.len());
    assert("--ngram"@.len() != "--to"@.len());
    assert("--ngram"@.len() != "--dict"@.len());
    assert("--files-from"@.len() != "--config"@.len());
    assert("--files-from"@.len() != "--from"@.len());
    assert("--files-from"@.len() != "--to"@.len());
    assert("--files-from"@.len() != "--dict"@.len());
    assert("--config"@.len() != "--from"@.len());
    assert("--config"@.len() != "--to"@.len());
    assert("--config"@.len() != "--dict"@.len());
    assert("--from"@.len() != "--to"@.len());
    assert("--to"@.len() != "--dict"@.len());
}

#[verifier::rlimit(50)]
proof fn lemma_parse_end(c: CliModel, conflict: bool, args: Seq<Seq<char>>)
    ensures
        parse_end(c, conflict, args) matches Some((m, k)) ==> {
            &&& parse_from(c, conflict, args) == finish(m, k)
            &&& (m.from is Some) == (c.from is Some || sets_option(args, "--from"@))
            &&& (m.to is Some) == (c.to is Some || sets_option(args, "--to"@))
            &&& (m.config is Some) == (c.config is Some || sets_option(args, "--config"@))
        },
    decreases args.len(),
{
    if args.len() > 0 {
        let a = args[0];
        let rest = args.drop_first();
        reveal_strlit("--ngram");
        reveal_strlit("--files-from");
        reveal_strlit("--config");
        reveal_strlit("--from");
        reveal_strlit("--to");
        reveal_strlit("--dict");
        reveal_strlit("--auto");
        reveal_strlit("--in-place");
        reveal_strlit("--list");
        reveal_strlit("-0");
        reveal_strlit("--null");
        reveal_strlit("-h");
        reveal_strlit("--help");
        reveal_strlit("-V");
        reveal_strlit("--version");
        reveal_strlit("-c");
        reveal_strlit("-f");
        reveal_strlit("-t");
        reveal_strlit("--");
        reveal_strlit("-l");
        reveal_strlit("--ls");
        reveal_strlit("-i");
        reveal_strlit("--no-detect");
        reveal_strlit("--fast");
        reveal_strlit("--bigram");
        reveal_strlit("--trigram");
        assert((flag_option(c, a) is Some) == (flag_option(initial_cli(), a) is Some));
        if a == "-h"@ || a == "--help"@ || a == "-V"@ || a == "--version"@ {
        } else if flag_option(c, a) is Some {
            lemma_parse_end(flag_option(c, a)->Some_0, mode_conflict(c, conflict, a), rest);
        } else if value_option(a) is Some {
            if rest.len() > 0 {
                let n = value_option(a)->Some_0;
                let c2 = set_value(c, n, rest[0]);
                lemma_value_names_distinct();
                lemma_parse_end(c2, conflict, rest.drop_first());
                assert(parse_end(c, conflict, args) == parse_end(c2, conflict, rest.drop_first()));
                assert(parse_from(c, conflict, args) == parse_from(c2, conflict, rest.drop_first()));
                assert(sets_option(args, "--from"@) == (n == "--from"@ || sets_option(rest.drop_first(), "--from"@)));
                assert((c2.from is Some) == (c.from is Some || n == "--from"@));
                assert((c2.to is Some) == (c.to is Some || n == "--to"@));
                assert((c2.config is Some) == (c.config is Some || n == "--config"@));
            }
        } else if a == "--"@ {
        } else if is_long(a) {
            lemma_value_names_distinct();
            let e = crate::lines::find_char(a, '=');
            let flag = a.take(e as int);
            match long_form(c, a) {
                Ok(c2) => {
                    lemma_parse_end(c2, conflict, rest);
                    assert(parse_end(c, conflict, args) == parse_end(c2, conflict, rest));
                    assert(parse_from(c, conflict, args) == parse_from(c2, conflict, rest));
                    if flag == "--config"@ || flag == "--from"@ || flag == "--to"@ || flag == "--dict"@ || flag
                        == "--ngram"@ || flag == "--files-from"@ {
                        assert(e < a.len());
                        assert(c2 == set_value(c, flag, a.skip(e + 1int)));
                    } else {
                        assert(c2 == c);
                    }
                },
                Err(_) => {},
            }
        } else {
            lemma_parse_end(CliModel { files: c.files.push(a), ..c }, conflict, rest);
        }
    }
}

/// The order of the parser's final checks, over whole argument lists: when
/// parsing reaches them (no help, version or argument error before), a lone
/// `--from` or `--to` is reported first, then `--config` beside them, then
/// two different mode flags; otherwise the command line runs. `--from`,
/// `--to` and `--config` count as given when some argument gives them a value.
pub proof fn lemma_parse_args_order(argv: Seq<Seq<char>>)
    ensures
        parse_end(initial_cli(), false, program_args(argv)) matches Some((_, k)) ==> {
            let args = program_args(argv);
            let f = sets_option(args, "--from"@);
            let t = sets_option(args, "--to"@);
            let cf = sets_option(args, "--config"@);
            &&& f != t ==> spec_parse_args(argv) == Err::<ActionModel, Seq<char>>(
                "--from and --to must be used together"@,
            )
            &&& f == t && cf && f ==> spec_parse_args(argv) == Err::<ActionModel, Seq<char>>(
                "--config is mutually exclusive with --from/--to"@,
            )
            &&& f == t && !(cf && f) && k ==> spec_parse_args(argv) == Err::<ActionModel, Seq<char>>(
                modes_exclusive_message(),
            )
            &&& f == t && !(cf && f) && !k ==> spec_parse_args(argv) matches Ok(ActionModel::Run(_))
        },
        parse_end(initial_cli(), false, program_args(argv)) is None ==> !(spec_parse_args(argv) matches Ok(
            ActionModel::Run(_),
        )),
{
    let args = program_args(argv);
    lemma_parse_end(initial_cli(), false, args);
    lemma_parse_end_none(initial_cli(), false, args);
    match parse_end(initial_cli(), false, args) {
        Some((m, k)) => {
            lemma_finish_order(m, k);
        },
        None => {},
    }
}

proof fn lemma_parse_end_none(c: CliModel, conflict: bool, args: Seq<Seq<char>>)
    ensures
        parse_end(c, conflict, args) is None ==> !(parse_from(c, conflict, args) matches Ok(ActionModel::Run(_))),
    decreases args.len(),
{
    if args.len() > 0 {
        let a = args[0];
        let rest = args.drop_first();
        if flag_option(c, a) is Some {
            lemma_parse_end_none(flag_option(c, a)->Some_0, mode_conflict(c, conflict, a), rest);
        } else if value_option(a) is Some {
            if rest.len() > 0 {
                lemma_parse_end_none(set_value(c, value_option(a)->Some_0, rest[0]), conflict, rest.drop_first());
            }
        } else if is_long(a) {
            match long_form(c, a) {
                Ok(c2) => {
                    lemma_parse_end_none(c2, conflict, rest);
                },
                Err(_) => {},
            }
        } else {
            lemma_parse_end_none(CliModel { files: c.files.push(a), ..c }, conflict, rest);
        }
    }
}

/// What the whole argument vector (program name first) asks for.
pub open spec fn spec_parse_args(argv: Seq<Seq<char>>) -> Result<ActionModel, Seq<char>> {
    parse_from(initial_cli(), false, program_args(argv))
}

/// The arguments after the program name.
pub open spec fn program_args(argv: Seq<Seq<char>>) -> Seq<Seq<char>> {
    if argv.len() > 0 {
        argv.skip(1)
    } else {
        Seq::empty()
    }
}

/// Which of the value options `a` is, as the name used in its message.
fn value_option_of(a: &str) -> (r: Option<&'static str>)
    ensures
        match value_option(a@) {
            Some(n) => r matches Some(x) && x@ == n,
            None => r is None,
        },
{
    if str_eq(a, "--ngram") {
        Some("--ngram")
    } else if str_eq(a, "--files-from") {
        Some("--files-from")
    } else if str_eq(a, "-c") || str_eq(a, "--config") {
        Some("--config")
    } else if str_eq(a, "-f") || str_eq(a, "--from") {
        Some("--from")
    } else if str_eq(a, "-t") || str_eq(a, "--to") {
        Some("--to")
    } else if str_eq(a, "--dict") {
        Some("--dict")
    } else {
        None
    }
}

/// Record the value `v` of the option `name`.
fn set_value_exec(cli: &mut Cli, name: &str, v: String)
    requires
        name@ == "--ngram"@ || name@ == "--files-from"@ || name@ == "--config"@ || name@ == "--from"@ || name@
            == "--to"@ || name@ == "--dict"@,
    ensures
        final(cli)@ == set_value(old(cli)@, name@, v@),
{
    if str_eq(name, "--ngram") {
        cli.ngram = Some(v);
    } else if str_eq(name, "--files-from") {
        cli.files_from = Some(v);
    } else if str_eq(name, "--config") {
        cli.config = Some(v);
    } else if str_eq(name, "--from") {
        cli.from = Some(v);
    } else if str_eq(name, "--to") {
        cli.to = Some(v);
    } else {
        let ghost before = cli.dicts@;
        cli.dicts.push(v);
        assert(strings_view(cli.dicts@) =~= strings_view(before).push(v@));
    }
}

/// The mode a mode flag selects: see `mode_of_flag`.
fn mode_of_flag_exec(a: &str) -> (r: Option<ModeFlag>)
    ensures
        r == mode_of_flag(a@),
{
    if str_eq(a, "--fast") {
        Some(ModeFlag::Fast)
    } else if str_eq(a, "--bigram") {
        Some(ModeFlag::Bigram)
    } else if str_eq(a, "--trigram") {
        Some(ModeFlag::Trigram)
    } else {
        None
    }
}

/// Record the flag `a`; `false` when `a` is not a flag.
fn flag_option_exec(cli: &mut Cli, a: &str) -> (r: bool)
    ensures
        match flag_option(old(cli)@, a@) {
            Some(c) => r && final(cli)@ == c,
            None => !r && final(cli)@ == old(cli)@,
        },
{
    if str_eq(a, "-l") || str_eq(a, "--list") || str_eq(a, "--ls") {
        cli.list = true;
    } else if str_eq(a, "-i") || str_eq(a, "--in-place") {
        cli.in_place = true;
    } else if str_eq(a, "--auto") {
        cli.auto = true;
    } else if str_eq(a, "--no-detect") {
        cli.auto = false;
    } else if str_eq(a, "-0") || str_eq(a, "--null") {
        cli.null = true;
    } else if str_eq(a, "--fast") {
        cli.mode_flag = ModeFlag::Fast;
    } else if str_eq(a, "--bigram") {
        cli.mode_flag = ModeFlag::Bigram;
    } else if str_eq(a, "--trigram") {
        cli.mode_flag = ModeFlag::Trigram;
    } else {
        return false;
    }
    true
}

/// The error for an unknown option.
fn bail_unknown(arg: &str) -> (e: String)
    ensures
        e@ == unknown_option_message(arg@),
{
    let mut e = String::from_str("unknown option: ");
    e.append(arg);
    e.append("\nsee `zhhz --help`");
    e
}

/// The error for an option without its value.
fn requires_value(name: &str) -> (e: String)
    ensures
        e@ == requires_value_message(name@),
{
    let mut e = String::from_str(name);
    e.append(" requires a value");
    e
}

/// Handle an argument of the form `--flag[=value]`.
fn long_form_exec(cli: &mut Cli, a: &str) -> (r: Result<(), String>)
    ensures
        match long_form(old(cli)@, a@) {
            Ok(c) => r is Ok && final(cli)@ == c,
            Err(e) => r matches Err(x) && x@ == e,
        },
{
    let v = str_chars(a);
    let e = crate::lines::scan_char(&v, 0, v.len(), '=');
    assert(v@.subrange(0, v@.len() as int) =~= v@);
    assert(v@.take(e as int) =~= v@.subrange(0, e as int));
    let flag = string_from_chars(&v, 0, e);
    let has_val = e < v.len();
    let ghost val: Option<Seq<char>> = if e < v@.len() {
        Some(v@.skip(e + 1))
    } else {
        None
    };
    let f = flag.as_str();
    if str_eq(f, "--config") || str_eq(f, "--from") || str_eq(f, "--to") || str_eq(f, "--dict") || str_eq(
        f,
        "--ngram",
    ) || str_eq(f, "--files-from") {
        if has_val {
            let value = string_from_chars(&v, e + 1, v.len());
            assert(v@.subrange(e + 1, v@.len() as int) =~= v@.skip(e + 1));
            set_value_exec(cli, f, value);
            Ok(())
        } else {
            Err(requires_value(f))
        }
    } else if str_eq(f, "--auto") || str_eq(f, "--in-place") || str_eq(f, "--list") {
        if has_val {
            let mut m = String::from_str("option ");
            m.append(f);
            m.append(" does not take a value");
            Err(m)
        } else {
            Ok(())
        }
    } else if str_eq(f, "-0") || str_eq(f, "--null") {
        Ok(())
    } else {
        Err(bail_unknown(a))
    }
}

/// Parse the argument vector (program name first).
pub fn parse_args(argv: Vec<String>) -> (r: Result<Action, String>)
    ensures
        match spec_parse_args(strings_view(argv@)) {
            Ok(a) => r matches Ok(x) && x@ == a,
            Err(e) => r matches Err(x) && x@ == e,
        },
{
    let mut cli = Cli {
        config: None,
        from: None,
        to: None,
        dicts: Vec::new(),
        in_place: false,
        list: false,
        files: Vec::new(),
        auto: false,
        files_from: None,
        null: false,
        ngram: None,
        mode_flag: ModeFlag::Default,
    };
    let ghost args = program_args(strings_view(argv@));
    assert(cli@ == initial_cli()) by {
        assert(strings_view(cli.dicts@) =~= Seq::<Seq<char>>::empty());
        assert(strings_view(cli.files@) =~= Seq::<Seq<char>>::empty());
    }
    let mut conflict = false;
    let mut i: usize = if argv.len() > 0 { 1 } else { 0 };
    assert(strings_view(argv@).skip(i as int) =~= args);
    while i < argv.len()
        invariant
            1 <= i || argv@.len() == 0,
            i <= argv@.len(),
            args == program_args(strings_view(argv@)),
            spec_parse_args(strings_view(argv@)) == parse_from(cli@, conflict, strings_view(argv@).skip(i as int)),
        decreases argv@.len() - i,
    {
        let ghost rest_all = strings_view(argv@).skip(i as int);
        let ghost old_cli = cli@;
        assert(rest_all[0] == argv@[i as int]@);
        assert(rest_all.drop_first() =~= strings_view(argv@).skip(i + 1));
        let a = argv[i].as_str();
        if str_eq(a, "-h") || str_eq(a, "--help") {
            return Ok(Action::Help);
        }
        if str_eq(a, "-V") || str_eq(a, "--version") {
            return Ok(Action::Version);
        }
        let now_conflict = conflict || match mode_of_flag_exec(a) {
            Some(m) => cli.mode_flag != ModeFlag::Default && cli.mode_flag != m,
            None => false,
        };
        if flag_option_exec(&mut cli, a) {
            conflict = now_conflict;
            i += 1;
            continue;
        }
        match value_option_of(a) {
            Some(name) => {
                if i + 1 >= argv.len() {
                    return Err(requires_value(name));
                }
                let v = argv[i + 1].clone();
                assert(rest_all.drop_first()[0] == argv@[i + 1]@);
                assert(rest_all.drop_first().drop_first() =~= strings_view(argv@).skip(i + 2));
                set_value_exec(&mut cli, name, v);
                i += 2;
                continue;
            },
            None => {},
        }
        if str_eq(a, "--") {
            let mut k = i + 1;
            let ghost base = cli.files@;
            while k < argv.len()
                invariant
                    i < k <= argv@.len(),
                    strings_view(cli.files@) == strings_view(base) + strings_view(argv@).subrange(i + 1, k as int),
                    cli@ == (CliModel { files: strings_view(cli.files@), ..old_cli }),
                decreases argv@.len() - k,
            {
                let f = argv[k].clone();
                let ghost before = cli.files@;
                cli.files.push(f);
                assert(strings_view(cli.files@) =~= strings_view(before).push(argv@[k as int]@));
                assert(strings_view(argv@).subrange(i + 1, k + 1) =~= strings_view(argv@).subrange(
                    i + 1,
                    k as int,
                ).push(argv@[k as int]@));
                k += 1;
            }
            assert(strings_view(argv@).subrange(i + 1, argv@.len() as int) =~= rest_all.drop_first());
            return finish_exec(cli, conflict);
        }
        let av = str_chars(a);
        if av.len() >= 2 && av[0] == '-' && av[1] == '-' {
            match long_form_exec(&mut cli, a) {
                Ok(()) => {
                    i += 1;
                    continue;
                },
                Err(e) => {
                    return Err(e);
                },
            }
        }
        if av.len() > 1 && av[0] == '-' {
            return Err(bail_unknown(a));
        }
        let f = argv[i].clone();
        let ghost before = cli.files@;
        cli.files.push(f);
        assert(strings_view(cli.files@) =~= strings_view(before).push(a@));
        i += 1;
    }
    assert(strings_view(argv@).skip(i as int).len() == 0);
    finish_exec(cli, conflict)
}

/// The checks made once every argument is read.
fn finish_exec(cli: Cli, conflict: bool) -> (r: Result<Action, String>)
    ensures
        match finish(cli@, conflict) {
            Ok(a) => r matches Ok(x) && x@ == a,
            Err(e) => r matches Err(x) && x@ == e,
        },
{
    let mut cli = cli;
    if cli.from.is_some() != cli.to.is_some() {
        return Err(String::from_str("--from and --to must be used together"));
    }
    if cli.config.is_some() && (cli.from.is_some() || cli.to.is_some()) {
        return Err(String::from_str("--config is mutually exclusive with --from/--to"));
    }
    if conflict {
        return Err(String::from_str("--fast, --bigram and --trigram are mutually exclusive"));
    }
    if cli.mode_flag == ModeFlag::Default && cli.ngram.is_some() {
        cli.mode_flag = ModeFlag::Trigram;
    }
    Ok(Action::Run(cli))
}


/// The config named `s`, if any.
pub open spec fn config_of_name(s: Seq<char>) -> Option<Config> {
    if exists|c: Config| config_name(c) == s {
        Some(choose|c: Config| config_name(c) == s)
    } else {
        None
    }
}

/// The region whose code is `s`, if any.
pub open spec fn region_of_code(s: Seq<char>) -> Option<Region> {
    if exists|g: Region| region_code(g) == s {
        Some(choose|g: Region| region_code(g) == s)
    } else {
        None
    }
}

/// What the selected config is: with `--from`/`--to`, the config that
/// converts between the regions they name; otherwise the config whose name
/// `--config` gives (`s2t` by default). Every config is selected by its own
/// name.
pub proof fn lemma_resolve_config_selects(c: CliModel, k: Config)
    ensures
        c.from is Some && c.to is Some ==> (spec_resolve_config(c) matches Ok(cfg) ==> exists|a: Region, b: Region|
            region_code(a) == c.from->Some_0 && region_code(b) == c.to->Some_0 && #[trigger] region_pair(a, b)
                == Some(cfg)),
        !(c.from is Some && c.to is Some) && c.config is Some ==> (spec_resolve_config(c) matches Ok(cfg)
            ==> config_name(cfg) == c.config->Some_0),
        !(c.from is Some && c.to is Some) && c.config is None ==> spec_resolve_config(c) == Ok::<Config, Seq<char>>(
            Config::S2t,
        ),
        !(c.from is Some && c.to is Some) && c.config == Some(config_name(k)) ==> spec_resolve_config(c) == Ok::<
            Config,
            Seq<char>,
        >(k),
{
    if !(c.from is Some && c.to is Some) {
        let name = match c.config {
            Some(n) => n,
            None => crate::DEFAULT_CONFIG@,
        };
        if c.config is None {
            assert(config_name(Config::S2t) == crate::DEFAULT_CONFIG@);
            assert(exists|x: Config| config_name(x) == name);
            let x = choose|x: Config| config_name(x) == name;
            lemma_config_name_injective(x, Config::S2t);
        }
        if c.config == Some(config_name(k)) {
            assert(exists|x: Config| config_name(x) == name);
            let x = choose|x: Config| config_name(x) == name;
            lemma_config_name_injective(x, k);
        }
    } else {
        let f = c.from->Some_0;
        let t = c.to->Some_0;
        if spec_resolve_config(c) is Ok {
            let a = region_of_code(f)->Some_0;
            let b = region_of_code(t)->Some_0;
            assert(region_code(a) == f);
            assert(region_code(b) == t);
        }
    }
}

/// The config a command line selects: the region pair when `--from`/`--to`
/// are given, else `--config`, else the default `s2t`.
pub open spec fn spec_resolve_config(c: CliModel) -> Result<Config, Seq<char>> {
    match (c.from, c.to) {
        (Some(f), Some(t)) => match (region_of_code(f), region_of_code(t)) {
            (None, _) => Err("invalid --from: "@ + unknown_region_message(f)),
            (Some(_), None) => Err("invalid --to: "@ + unknown_region_message(t)),
            (Some(a), Some(b)) => match region_pair(a, b) {
                Some(cfg) => Ok(cfg),
                None => Err(
                    region_pair_message(a, b) + "\nhint: try an intermediate (e.g. "@ + f + " -> cn-t -> "@ + t
                        + ")"@,
                ),
            },
        },
        _ => {
            let name = match c.config {
                Some(n) => n,
                None => crate::DEFAULT_CONFIG@,
            };
            match config_of_name(name) {
                Some(cfg) => Ok(cfg),
                None => Err("invalid --config: "@ + unknown_config_message(name)),
            }
        },
    }
}

/// The config a command line selects.
pub fn resolve_config(cli: &Cli) -> (r: Result<Config, String>)
    ensures
        match spec_resolve_config(cli@) {
            Ok(c) => r == Ok::<Config, String>(c),
            Err(e) => r matches Err(x) && x@ == e,
        },
{
    match (&cli.from, &cli.to) {
        (Some(from), Some(to)) => {
            let f = match Region::parse(from.as_str()) {
                Ok(g) => g,
                Err(e) => {
                    let mut m = String::from_str("invalid --from: ");
                    m.append(e.as_str());
                    return Err(m);
                },
            };
            proof {
                crate::engine::lemma_region_code_injective(f, choose|g: Region| region_code(g) == from@);
            }
            let t = match Region::parse(to.as_str()) {
                Ok(g) => g,
                Err(e) => {
                    let mut m = String::from_str("invalid --to: ");
                    m.append(e.as_str());
                    return Err(m);
                },
            };
            proof {
                crate::engine::lemma_region_code_injective(t, choose|g: Region| region_code(g) == to@);
            }
            match region_pair_config(f, t) {
                Ok(c) => Ok(c),
                Err(e) => {
                    let mut m = e;
                    m.append("\nhint: try an intermediate (e.g. ");
                    m.append(from.as_str());
                    m.append(" -> cn-t -> ");
                    m.append(to.as_str());
                    m.append(")");
                    Err(m)
                },
            }
        },
        _ => {
            let name: &str = match &cli.config {
                Some(n) => n.as_str(),
                None => crate::DEFAULT_CONFIG,
            };
            match Config::parse(name) {
                Ok(c) => {
                    proof {
                        crate::engine::lemma_config_name_injective(c, choose|k: Config| config_name(k) == name@);
                    }
                    Ok(c)
                },
                Err(e) => {
                    let mut m = String::from_str("invalid --config: ");
                    m.append(e.as_str());
                    Err(m)
                },
            }
        },
    }
}

/// `args` with the first occurrence of `w` removed.
pub open spec fn remove_first(args: Seq<Seq<char>>, w: Seq<char>) -> Seq<Seq<char>>
    decreases args.len(),
{
    if args.len() == 0 {
        args
    } else if args[0] == w {
        args.drop_first()
    } else {
        seq![args[0]] + remove_first(args.drop_first(), w)
    }
}

/// Whether the argument `a` is a flag: a `-` followed by more (a lone `-`
/// names stdin).
pub open spec fn is_flag_arg(a: Seq<char>) -> bool {
    a.len() > 1 && a[0] == '-'
}

/// Whether the first argument of `args` that is not a flag is `detect`.
pub open spec fn detect_first(args: Seq<Seq<char>>) -> bool
    decreases args.len(),
{
    if args.len() == 0 {
        false
    } else if is_flag_arg(args[0]) {
        detect_first(args.drop_first())
    } else {
        args[0] == "detect"@
    }
}

/// Removing `w` from a list whose prefix `p` lacks it removes it from the rest.
proof fn lemma_remove_first_after(p: Seq<Seq<char>>, rest: Seq<Seq<char>>, w: Seq<char>)
    requires
        forall|k: int| 0 <= k < p.len() ==> p[k] != w,
    ensures
        remove_first(p + rest, w) == p + remove_first(rest, w),
    decreases p.len(),
{
    if p.len() > 0 {
        lemma_remove_first_after(p.drop_first(), rest, w);
        assert((p + rest).drop_first() =~= p.drop_first() + rest);
        assert(p + remove_first(rest, w) =~= seq![p[0]] + (p.drop_first() + remove_first(rest, w)));
    } else {
        assert(p + rest =~= rest);
        assert(p + remove_first(rest, w) =~= remove_first(rest, w));
    }
}

/// The `detect` subcommand: when the first argument after the program name
/// that is not a flag is the word `detect`, the arguments to hand to it (all
/// of them but that `detect`); `None` otherwise.
pub open spec fn spec_detect_subcommand(argv: Seq<Seq<char>>) -> Option<Seq<Seq<char>>> {
    let args = program_args(argv);
    if detect_first(args) {
        Some(remove_first(args, "detect"@))
    } else {
        None
    }
}

/// Whether `a` is a flag: see `is_flag_arg`.
fn is_flag_exec(a: &str) -> (r: bool)
    ensures
        r == is_flag_arg(a@),
{
    let v = str_chars(a);
    v.len() > 1 && v[0] == '-'
}

/// Route to the `detect` subcommand: see `spec_detect_subcommand`.
pub fn detect_subcommand(argv: &Vec<String>) -> (r: Option<Vec<String>>)
    ensures
        match spec_detect_subcommand(strings_view(argv@)) {
            Some(a) => r matches Some(v) && strings_view(v@) == a,
            None => r is None,
        },
{
    let ghost av = strings_view(argv@);
    let ghost args = program_args(av);
    if argv.len() == 0 {
        assert(args.len() == 0);
        return None;
    }
    assert(args =~= av.skip(1));
    let mut j: usize = 1;
    assert(args.skip(0) =~= args);
    while j < argv.len() && is_flag_exec(argv[j].as_str())
        invariant
            av == strings_view(argv@),
            args == av.skip(1),
            1 <= j <= argv@.len(),
            detect_first(args) == detect_first(args.skip(j - 1)),
            forall|k: int| 0 <= k < j - 1 ==> is_flag_arg(#[trigger] args[k]),
        decreases argv@.len() - j,
    {
        assert(args.skip(j - 1)[0] == argv@[j as int]@);
        assert(args.skip(j - 1).drop_first() =~= args.skip(j as int));
        j += 1;
    }
    if j >= argv.len() {
        assert(args.skip(j - 1).len() == 0);
        return None;
    }
    assert(args.skip(j - 1)[0] == argv@[j as int]@);
    if !str_eq(argv[j].as_str(), "detect") {
        return None;
    }
    let mut rest: Vec<String> = Vec::new();
    let mut i: usize = 1;
    assert(strings_view(rest@) =~= args.take(0));
    while i < j
        invariant
            av == strings_view(argv@),
            args == av.skip(1),
            1 <= i <= j < argv@.len(),
            strings_view(rest@) == args.take(i - 1),
        decreases j - i,
    {
        let ghost before = strings_view(rest@);
        rest.push(argv[i].clone());
        assert(strings_view(rest@) =~= before.push(argv@[i as int]@));
        assert(args.take(i as int) =~= args.take(i - 1).push(args[i - 1]));
        i += 1;
    }
    let mut k: usize = j + 1;
    assert(strings_view(rest@) + args.skip(j as int).take(0) =~= args.take(j - 1));
    while k < argv.len()
        invariant
            av == strings_view(argv@),
            args == av.skip(1),
            j < k <= argv@.len(),
            strings_view(rest@) == args.take(j - 1) + args.subrange(j as int, k - 1),
        decreases argv@.len() - k,
    {
        let ghost before = strings_view(rest@);
        rest.push(argv[k].clone());
        assert(strings_view(rest@) =~= before.push(argv@[k as int]@));
        assert(args.subrange(j as int, k as int) =~= args.subrange(j as int, k - 1).push(args[k - 1]));
        assert(args.take(j - 1) + args.subrange(j as int, k as int) =~= (args.take(j - 1) + args.subrange(
            j as int,
            k - 1,
        )).push(args[k - 1]));
        k += 1;
    }
    proof {
        let p = args.take(j - 1);
        let tail = args.skip(j - 1);
        assert forall|q: int| 0 <= q < p.len() implies p[q] != "detect"@ by {
            assert(is_flag_arg(args[q]));
            reveal_strlit("detect");
        }
        assert(args =~= p + tail);
        lemma_remove_first_after(p, tail, "detect"@);
        assert(tail[0] == "detect"@);
        assert(remove_first(tail, "detect"@) =~= tail.drop_first());
        assert(tail.drop_first() =~= args.subrange(j as int, argv@.len() - 1));
    }
    Some(rest)
}

/// The n-gram model a command line asks for: `None` without `--bigram` or
/// `--trigram` (a `--ngram` path is then ignored); the path and mode with
/// one of them; an error when the path is missing.
pub open spec fn spec_ngram_request(c: CliModel) -> Result<Option<(Seq<char>, NgramMode)>, Seq<char>> {
    match c.mode_flag {
        ModeFlag::Default | ModeFlag::Fast => Ok(None),
        ModeFlag::Bigram => match c.ngram {
            Some(p) => Ok(Some((p, NgramMode::Bigram))),
            None => Err("--bigram requires --ngram <arpa-file>"@),
        },
        ModeFlag::Trigram => match c.ngram {
            Some(p) => Ok(Some((p, NgramMode::Trigram))),
            None => Err("--trigram requires --ngram <arpa-file>"@),
        },
    }
}

/// The n-gram model a command line asks for: see `spec_ngram_request`.
pub fn ngram_request(cli: &Cli) -> (r: Result<Option<(String, NgramMode)>, String>)
    ensures
        match spec_ngram_request(cli@) {
            Ok(None) => r matches Ok(None),
            Ok(Some((p, m))) => r matches Ok(Some((q, n))) && q@ == p && n == m,
            Err(e) => r matches Err(x) && x@ == e,
        },
{
    match cli.mode_flag {
        ModeFlag::Default | ModeFlag::Fast => Ok(None),
        ModeFlag::Bigram => match &cli.ngram {
            Some(p) => Ok(Some((p.clone(), NgramMode::Bigram))),
            None => Err("--bigram requires --ngram <arpa-file>".to_string()),
        },
        ModeFlag::Trigram => match &cli.ngram {
            Some(p) => Ok(Some((p.clone(), NgramMode::Trigram))),
            None => Err("--trigram requires --ngram <arpa-file>".to_string()),
        },
    }
}

/// The conversions `--auto` applies, in order, to an input detected as
/// `det`, to bring it to Simplified Chinese: none for Simplified or
/// unknown input; Japanese shinjitai goes through kyūjitai first.
pub open spec fn spec_auto_pipeline(det: Option<Region>) -> Seq<Config> {
    match det {
        Some(Region::CnS) => Seq::empty(),
        Some(Region::CnT) => seq![Config::T2s],
        Some(Region::CnTw) => seq![Config::Tw2sp],
        Some(Region::CnHk) => seq![Config::Hk2sp],
        Some(Region::JpN) => seq![Config::Jp2t, Config::T2s],
        Some(Region::JpT) => seq![Config::T2s],
        None => Seq::empty(),
    }
}

/// Whether the configs `p`, applied in order, lead through the regions
/// `rs`: the `i`th config converts from `rs[i]` to `rs[i + 1]`.
pub open spec fn path_through(rs: Seq<Region>, p: Seq<Config>) -> bool {
    &&& rs.len() == p.len() + 1
    &&& forall|i: int| 0 <= i < p.len() ==> region_pair(rs[i], rs[i + 1]) == Some(#[trigger] p[i])
}

/// Whether the configs `p`, applied in order, lead from region `from` to
/// region `to`.
pub open spec fn leads(from: Region, p: Seq<Config>, to: Region) -> bool {
    exists|rs: Seq<Region>| #[trigger] path_through(rs, p) && rs[0] == from && rs.last() == to
}

/// The model a command line asks for follows its mode flag: a model is
/// requested exactly under `--bigram` or `--trigram` with a path, with that
/// path and the flag's own mode; without such a flag none is; with the flag
/// but no path the request fails.
pub proof fn lemma_ngram_request_follows_flag(c: CliModel)
    ensures
        spec_ngram_request(c) matches Ok(Some((p, m))) ==> {
            &&& c.ngram == Some(p)
            &&& (m == NgramMode::Bigram <==> c.mode_flag == ModeFlag::Bigram)
            &&& (m == NgramMode::Trigram <==> c.mode_flag == ModeFlag::Trigram)
            &&& m != NgramMode::Off
        },
        (c.mode_flag == ModeFlag::Bigram || c.mode_flag == ModeFlag::Trigram) && c.ngram is Some ==> spec_ngram_request(
            c,
        ) matches Ok(Some(_)),
        (c.mode_flag == ModeFlag::Bigram || c.mode_flag == ModeFlag::Trigram) && c.ngram is None
            ==> spec_ngram_request(c) is Err,
        (c.mode_flag == ModeFlag::Default || c.mode_flag == ModeFlag::Fast) ==> spec_ngram_request(c) == Ok::<
            Option<(Seq<char>, NgramMode)>,
            Seq<char>,
        >(None),
{
}

/// What `--auto` does to each detected region: Simplified and unknown input
/// is left alone; every other region is carried to Simplified (cn-s) by
/// conversions that each go from one region to the next, starting at the
/// detected one (kyūjitai is read as standard Traditional).
pub proof fn lemma_auto_reaches_simplified(r: Region)
    ensures
        spec_auto_pipeline(None).len() == 0,
        spec_auto_pipeline(Some(Region::CnS)).len() == 0,
        r != Region::CnS && r != Region::JpT ==> spec_auto_pipeline(Some(r)).len() > 0 && leads(
            r,
            spec_auto_pipeline(Some(r)),
            Region::CnS,
        ),
        spec_auto_pipeline(Some(Region::JpT)).len() > 0 && leads(
            Region::CnT,
            spec_auto_pipeline(Some(Region::JpT)),
            Region::CnS,
        ),
{
    let p = spec_auto_pipeline(Some(r));
    if r == Region::JpN {
        let rs = seq![Region::JpN, Region::CnT, Region::CnS];
        assert(path_through(rs, p));
    } else if r == Region::CnT || r == Region::CnTw || r == Region::CnHk {
        let rs = seq![r, Region::CnS];
        assert(path_through(rs, p));
    }
    let q = spec_auto_pipeline(Some(Region::JpT));
    assert(path_through(seq![Region::CnT, Region::CnS], q));
}

/// The conversions `--auto` applies: see `spec_auto_pipeline`.
pub fn auto_pipeline(det: Option<Region>) -> (r: Vec<Config>)
    ensures
        r@ == spec_auto_pipeline(det),
{
    let mut v: Vec<Config> = Vec::new();
    match det {
        Some(Region::CnS) => {},
        Some(Region::CnT) => {
            v.push(Config::T2s);
        },
        Some(Region::CnTw) => {
            v.push(Config::Tw2sp);
        },
        Some(Region::CnHk) => {
            v.push(Config::Hk2sp);
        },
        Some(Region::JpN) => {
            v.push(Config::Jp2t);
            v.push(Config::T2s);
        },
        Some(Region::JpT) => {
            v.push(Config::T2s);
        },
        None => {},
    }
    assert(v@ =~= spec_auto_pipeline(det));
    v
}

/// `s` left-aligned in a field of six characters (`{:<6}`).
pub open spec fn pad6(s: Seq<char>) -> Seq<char> {
    if s.len() < 6 {
        s + Seq::new((6 - s.len()) as nat, |i: int| ' ')
    } else {
        s
    }
}

/// The row of `--list` for a region.
pub open spec fn region_row(r: Region) -> Seq<char> {
    pad6(region_code(r)) + "  "@ + crate::engine::region_description(r) + "\n"@
}

/// The row of `--list` for a region pair, empty when no config converts
/// between them.
pub open spec fn pair_row(f: Region, t: Region) -> Seq<char> {
    match region_pair(f, t) {
        Some(c) => pad6(region_code(f)) + "  "@ + pad6(region_code(t)) + "  "@ + config_name(c) + "\n"@,
        None => Seq::empty(),
    }
}

/// The text of `--list`: the regions, then the region pairs with their
/// OpenCC config.
pub open spec fn listing_text() -> Seq<char> {
    pad6("REGION"@) + "  DESCRIPTION\n"@
        + region_row(Region::CnS) + region_row(Region::CnT) + region_row(Region::CnTw)
        + region_row(Region::CnHk) + region_row(Region::JpT) + region_row(Region::JpN)
        + "\n"@ + pad6("FROM"@) + "  "@ + pad6("TO"@) + "  OPENCC CONFIG\n"@
        + pair_row(Region::CnS, Region::CnT) + pair_row(Region::CnT, Region::CnS)
        + pair_row(Region::CnS, Region::CnTw) + pair_row(Region::CnTw, Region::CnS)
        + pair_row(Region::CnS, Region::CnHk) + pair_row(Region::CnHk, Region::CnS)
        + pair_row(Region::CnT, Region::CnTw) + pair_row(Region::CnTw, Region::CnT)
        + pair_row(Region::CnT, Region::CnHk) + pair_row(Region::CnHk, Region::CnT)
        + pair_row(Region::JpN, Region::JpT) + pair_row(Region::JpT, Region::JpN)
        + pair_row(Region::JpN, Region::CnT) + pair_row(Region::CnT, Region::JpN)
}

/// Appends `s` left-aligned in a field of six characters.
fn push_padded(out: &mut String, s: &str)
    ensures
        final(out)@ == old(out)@ + pad6(s@),
{
    let n = s.unicode_len();
    push_str_to(out, s);
    let mut k = n;
    while k < 6
        invariant
            n == s@.len(),
            n <= k <= 6 || (n > 6 && k == n),
            out@ == old(out)@ + s@ + Seq::new((k - n) as nat, |i: int| ' '),
        decreases 6 - k,
    {
        let ghost before = out@;
        crate::text::string_push(out, ' ');
        assert(Seq::new((k + 1 - n) as nat, |i: int| ' ') =~= Seq::new((k - n) as nat, |i: int| ' ').push(' '));
        k += 1;
    }
    if n < 6 {
        assert(k == 6);
    } else {
        assert(Seq::new((k - n) as nat, |i: int| ' ') =~= Seq::<char>::empty());
        assert(old(out)@ + s@ + Seq::<char>::empty() =~= old(out)@ + s@);
    }
}

fn push_region_row(out: &mut String, r: Region)
    ensures
        final(out)@ == old(out)@ + region_row(r),
{
    push_padded(out, r.code());
    push_str_to(out, "  ");
    push_str_to(out, r.description());
    push_str_to(out, "\n");
}

fn push_pair_row(out: &mut String, f: Region, t: Region)
    ensures
        final(out)@ == old(out)@ + pair_row(f, t),
{
    match region_pair_config(f, t) {
        Ok(c) => {
            push_padded(out, f.code());
            push_str_to(out, "  ");
            push_padded(out, t.code());
            push_str_to(out, "  ");
            push_str_to(out, c.name());
            push_str_to(out, "\n");
        },
        Err(_) => {
            assert(old(out)@ + Seq::<char>::empty() =~= old(out)@);
        },
    }
}

/// The text of `--list`.
pub fn listing() -> (r: String)
    ensures
        r@ == listing_text(),
{
    let mut s = String::new();
    push_padded(&mut s, "REGION");
    push_str_to(&mut s, "  DESCRIPTION\n");
    push_region_row(&mut s, Region::CnS);
    push_region_row(&mut s, Region::CnT);
    push_region_row(&mut s, Region::CnTw);
    push_region_row(&mut s, Region::CnHk);
    push_region_row(&mut s, Region::JpT);
    push_region_row(&mut s, Region::JpN);
    push_str_to(&mut s, "\n");
    push_padded(&mut s, "FROM");
    push_str_to(&mut s, "  ");
    push_padded(&mut s, "TO");
    push_str_to(&mut s, "  OPENCC CONFIG\n");
    push_pair_row(&mut s, Region::CnS, Region::CnT);
    push_pair_row(&mut s, Region::CnT, Region::CnS);
    push_pair_row(&mut s, Region::CnS, Region::CnTw);
    push_pair_row(&mut s, Region::CnTw, Region::CnS);
    push_pair_row(&mut s, Region::CnS, Region::CnHk);
    push_pair_row(&mut s, Region::CnHk, Region::CnS);
    push_pair_row(&mut s, Region::CnT, Region::CnTw);
    push_pair_row(&mut s, Region::CnTw, Region::CnT);
    push_pair_row(&mut s, Region::CnT, Region::CnHk);
    push_pair_row(&mut s, Region::CnHk, Region::CnT);
    push_pair_row(&mut s, Region::JpN, Region::JpT);
    push_pair_row(&mut s, Region::JpT, Region::JpN);
    push_pair_row(&mut s, Region::JpN, Region::CnT);
    push_pair_row(&mut s, Region::CnT, Region::JpN);
    s
}

} // verus!
