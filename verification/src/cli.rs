//! The command line.
//!
//! ```text
//! <program> run [-i|--input FILE] [-o|--output FILE] [-f|--format gophish|list]
//!               [-j|--json] [-m|--method regex|mx|smtp] [-d|--disable-wildcard] [-v|--verbose]
//! <program> api [BIND_ADDR] [-v|--verbose]
//! ```
//!
//! Tokens are read left to right. `--name=value` and `--name value` give a
//! long option its value; `-xvalue`, `-x=value` and `-x value` give a short
//! one its value; short flags may be grouped (`-dv`). A value given in a
//! separate token must not look like an option: it is either `-` or does not
//! start with `-`. `--` ends the options. Every option may be given once.
//! `--json` and `--format` exclude each other. Unset options take their
//! defaults: format `list`, method `smtp`; the bind address falls back to the
//! `BIND_ADDR` environment value, then to `0.0.0.0:8080`. Help requests
//! (`-h`, `--help`, `help`) and every other token are refused.

use vstd::prelude::*;
use crate::order::string_texts;
use crate::text::{chars_of, chars_range, string_of};

verus! {

/// Output format for the validated addresses.
#[derive(Clone, Copy, PartialEq, Eq, PartialOrd, Ord, Debug, Structural)]
pub enum Format {
    /// GoPhish-compatible CSV: `First Name,Last Name,Email,Position`.
    Gophish,
    /// One address per line.
    List,
}

/// How each address is validated.
#[derive(Clone, Copy, PartialEq, Eq, PartialOrd, Ord, Debug, Structural)]
pub enum Method {
    /// Syntax only.
    Regex,
    /// Syntax and a DNS MX lookup.
    Mx,
    /// A full SMTP conversation with the receiving server.
    Smtp,
}

/// Options of the `run` command.
#[derive(Debug)]
pub struct RunArgs {
    /// Input file; standard input when absent.
    pub input: Option<String>,
    /// Output file; standard output when absent.
    pub output: Option<String>,
    pub format: Format,
    /// JSON output of every result.
    pub json: bool,
    pub method: Method,
    /// Skip the catch-all domain detection.
    pub disable_wildcard: bool,
    /// Progress on standard error.
    pub verbose: bool,
}

/// Options of the `api` command.
#[derive(Debug)]
pub struct ApiArgs {
    pub bind_addr: String,
    pub verbose: bool,
}

#[derive(Debug)]
pub enum Command {
    /// Validate a list: file or standard input in, file or standard output out.
    Run(RunArgs),
    /// Serve validation over HTTP.
    Api(ApiArgs),
}

#[derive(Debug)]
pub struct Cli {
    pub command: Command,
}

/// The command line was refused (unknown or repeated option, missing or
/// invalid value, conflicting options, help request, missing command).
#[derive(Debug, PartialEq, Eq)]
pub struct CliError;

// ---------------------------------------------------------------------------
// Model
// ---------------------------------------------------------------------------

pub struct RunModel {
    pub input: Option<Seq<char>>,
    pub output: Option<Seq<char>>,
    pub format: Format,
    pub json: bool,
    pub method: Method,
    pub disable_wildcard: bool,
    pub verbose: bool,
}

pub enum CliModel {
    Run(RunModel),
    Api { bind_addr: Seq<char>, verbose: bool },
}

pub open spec fn opt_text(o: Option<String>) -> Option<Seq<char>> {
    match o {
        Some(s) => Some(s@),
        None => None,
    }
}

impl Cli {
    pub open spec fn model(&self) -> CliModel {
        match self.command {
            Command::Run(r) => CliModel::Run(
                RunModel {
                    input: opt_text(r.input),
                    output: opt_text(r.output),
                    format: r.format,
                    json: r.json,
                    method: r.method,
                    disable_wildcard: r.disable_wildcard,
                    verbose: r.verbose,
                },
            ),
            Command::Api(a) => CliModel::Api { bind_addr: a.bind_addr@, verbose: a.verbose },
        }
    }
}

/// An option of the `run` command.
#[derive(Clone, Copy, PartialEq, Eq, Debug, Structural)]
pub enum RunOption {
    Input,
    Output,
    Format,
    Json,
    Method,
    DisableWildcard,
    Verbose,
}

pub open spec fn takes_value(o: RunOption) -> bool {
    o == RunOption::Input || o == RunOption::Output || o == RunOption::Format || o
        == RunOption::Method
}

pub open spec fn run_long_option(name: Seq<char>) -> Option<RunOption> {
    if name == "input"@ {
        Some(RunOption::Input)
    } else if name == "output"@ {
        Some(RunOption::Output)
    } else if name == "format"@ {
        Some(RunOption::Format)
    } else if name == "json"@ {
        Some(RunOption::Json)
    } else if name == "method"@ {
        Some(RunOption::Method)
    } else if name == "disable-wildcard"@ {
        Some(RunOption::DisableWildcard)
    } else if name == "verbose"@ {
        Some(RunOption::Verbose)
    } else {
        None
    }
}

pub open spec fn run_short_option(c: char) -> Option<RunOption> {
    if c == 'i' {
        Some(RunOption::Input)
    } else if c == 'o' {
        Some(RunOption::Output)
    } else if c == 'f' {
        Some(RunOption::Format)
    } else if c == 'j' {
        Some(RunOption::Json)
    } else if c == 'm' {
        Some(RunOption::Method)
    } else if c == 'd' {
        Some(RunOption::DisableWildcard)
    } else if c == 'v' {
        Some(RunOption::Verbose)
    } else {
        None
    }
}

pub open spec fn format_named(v: Seq<char>) -> Option<Format> {
    if v == "gophish"@ {
        Some(Format::Gophish)
    } else if v == "list"@ {
        Some(Format::List)
    } else {
        None
    }
}

pub open spec fn method_named(v: Seq<char>) -> Option<Method> {
    if v == "regex"@ {
        Some(Method::Regex)
    } else if v == "mx"@ {
        Some(Method::Mx)
    } else if v == "smtp"@ {
        Some(Method::Smtp)
    } else {
        None
    }
}

/// `--`: the end of the options.
pub open spec fn is_escape(t: Seq<char>) -> bool {
    t.len() == 2 && t[0] == '-' && t[1] == '-'
}

/// `--name` or `--name=value`.
pub open spec fn is_long(t: Seq<char>) -> bool {
    t.len() > 2 && t[0] == '-' && t[1] == '-'
}

/// `-x...`: one or more short options.
pub open spec fn is_short(t: Seq<char>) -> bool {
    t.len() >= 2 && t[0] == '-' && t[1] != '-'
}

/// A token that can be the value of an option or a positional argument.
pub open spec fn is_value_token(t: Seq<char>) -> bool {
    t.len() == 0 || t[0] != '-' || t.len() == 1
}

/// Index of the first `=` in `t`.
pub open spec fn first_equals(t: Seq<char>) -> Option<int>
    decreases t.len(),
{
    if t.len() == 0 {
        None
    } else if t[0] == '=' {
        Some(0)
    } else {
        match first_equals(t.drop_first()) {
            Some(i) => Some(i + 1),
            None => None,
        }
    }
}

/// Options of `run` given so far: a value or `true` once present.
pub struct RunState {
    pub input: Option<Seq<char>>,
    pub output: Option<Seq<char>>,
    pub format: Option<Format>,
    pub json: bool,
    pub method: Option<Method>,
    pub disable_wildcard: bool,
    pub verbose: bool,
}

pub open spec fn empty_run_state() -> RunState {
    RunState {
        input: None,
        output: None,
        format: None,
        json: false,
        method: None,
        disable_wildcard: false,
        verbose: false,
    }
}

/// Gives the option `o` the value `v`; refused when `o` is already present
/// or `v` is not one of its values.
pub open spec fn set_value(st: RunState, o: RunOption, v: Seq<char>) -> Option<RunState> {
    match o {
        RunOption::Input => if st.input is Some {
            None
        } else {
            Some(RunState { input: Some(v), ..st })
        },
        RunOption::Output => if st.output is Some {
            None
        } else {
            Some(RunState { output: Some(v), ..st })
        },
        RunOption::Format => if st.format is Some {
            None
        } else {
            match format_named(v) {
                Some(f) => Some(RunState { format: Some(f), ..st }),
                None => None,
            }
        },
        RunOption::Method => if st.method is Some {
            None
        } else {
            match method_named(v) {
                Some(m) => Some(RunState { method: Some(m), ..st }),
                None => None,
            }
        },
        _ => None,
    }
}

/// Sets the flag `o`; refused when it is already set.
pub open spec fn set_flag(st: RunState, o: RunOption) -> Option<RunState> {
    match o {
        RunOption::Json => if st.json {
            None
        } else {
            Some(RunState { json: true, ..st })
        },
        RunOption::DisableWildcard => if st.disable_wildcard {
            None
        } else {
            Some(RunState { disable_wildcard: true, ..st })
        },
        RunOption::Verbose => if st.verbose {
            None
        } else {
            Some(RunState { verbose: true, ..st })
        },
        _ => None,
    }
}

/// A value taken from the following token, when that token is a value.
pub open spec fn with_next(r: Option<RunState>) -> Option<(RunState, bool)> {
    match r {
        Some(s) => Some((s, true)),
        None => None,
    }
}

pub open spec fn without_next(r: Option<RunState>) -> Option<(RunState, bool)> {
    match r {
        Some(s) => Some((s, false)),
        None => None,
    }
}

/// Reads `--name[=value]`; the flag tells whether the following token `next`
/// was taken as the value.
pub open spec fn long_step(t: Seq<char>, next: Option<Seq<char>>, st: RunState) -> Option<
    (RunState, bool),
> {
    let body = t.skip(2);
    let (name, value) = match first_equals(body) {
        Some(e) => (body.take(e), Some(body.skip(e + 1))),
        None => (body, None),
    };
    match run_long_option(name) {
        None => None,
        Some(o) => if takes_value(o) {
            match value {
                Some(v) => without_next(set_value(st, o, v)),
                None => match next {
                    Some(v) => with_next(set_value(st, o, v)),
                    None => None,
                },
            }
        } else if value is Some {
            None
        } else {
            without_next(set_flag(st, o))
        },
    }
}

/// Reads the short options of `t` from position `k` on.
pub open spec fn short_step(t: Seq<char>, k: int, next: Option<Seq<char>>, st: RunState) -> Option<
    (RunState, bool),
>
    decreases t.len() - k,
{
    if k >= t.len() || k < 0 {
        Some((st, false))
    } else {
        match run_short_option(t[k]) {
            None => None,
            Some(o) => if takes_value(o) {
                let rest = t.subrange(k + 1, t.len() as int);
                if rest.len() > 0 {
                    let v = if rest[0] == '=' {
                        rest.drop_first()
                    } else {
                        rest
                    };
                    without_next(set_value(st, o, v))
                } else {
                    match next {
                        Some(v) => with_next(set_value(st, o, v)),
                        None => None,
                    }
                }
            } else {
                match set_flag(st, o) {
                    Some(s2) => short_step(t, k + 1, next, s2),
                    None => None,
                }
            },
        }
    }
}

pub open spec fn next_value(toks: Seq<Seq<char>>, i: int) -> Option<Seq<char>> {
    if 0 <= i < toks.len() && is_value_token(toks[i]) {
        Some(toks[i])
    } else {
        None
    }
}

/// Reads the tokens of `run` from position `i` on.
pub open spec fn scan_run(toks: Seq<Seq<char>>, i: nat, st: RunState) -> Option<RunState>
    decreases toks.len() + 2 - i,
{
    if i >= toks.len() {
        Some(st)
    } else {
        let t = toks[i as int];
        let next = next_value(toks, (i + 1) as int);
        if is_escape(t) {
            if i + 1 == toks.len() {
                Some(st)
            } else {
                None
            }
        } else {
            let step = if is_long(t) {
                long_step(t, next, st)
            } else if is_short(t) {
                short_step(t, 1, next, st)
            } else {
                None
            };
            match step {
                Some((s2, used)) => scan_run(
                    toks,
                    (i + 1 + if used {
                        1nat
                    } else {
                        0nat
                    }) as nat,
                    s2,
                ),
                None => None,
            }
        }
    }
}

/// The `run` options once every token is read.
pub open spec fn run_model(st: RunState) -> Option<RunModel> {
    if st.json && st.format is Some {
        None
    } else {
        Some(
            RunModel {
                input: st.input,
                output: st.output,
                format: match st.format {
                    Some(f) => f,
                    None => Format::List,
                },
                json: st.json,
                method: match st.method {
                    Some(m) => m,
                    None => Method::Smtp,
                },
                disable_wildcard: st.disable_wildcard,
                verbose: st.verbose,
            },
        )
    }
}

/// Reads the tokens of `api` from position `i` on: the bind address given so
/// far, the verbose flag, and whether `--` was seen.
pub open spec fn scan_api(
    toks: Seq<Seq<char>>,
    i: nat,
    bind: Option<Seq<char>>,
    verbose: bool,
    trailing: bool,
) -> Option<(Option<Seq<char>>, bool)>
    decreases toks.len() - i,
{
    if i >= toks.len() {
        Some((bind, verbose))
    } else {
        let t = toks[i as int];
        if !trailing && is_escape(t) {
            scan_api(toks, i + 1, bind, verbose, true)
        } else if !trailing && (is_long(t) || is_short(t)) {
            if (t == "--verbose"@ || t == "-v"@) && !verbose {
                scan_api(toks, i + 1, bind, true, trailing)
            } else {
                None
            }
        } else if bind is None {
            scan_api(toks, i + 1, Some(t), verbose, trailing)
        } else {
            None
        }
    }
}

pub open spec fn default_bind_addr() -> Seq<char> {
    "0.0.0.0:8080"@
}

/// What the command line `args` (program name first) means, with
/// `env_bind` the value of `BIND_ADDR` if set; `None` when it is refused.
pub open spec fn parse_command_line(args: Seq<Seq<char>>, env_bind: Option<Seq<char>>) -> Option<
    CliModel,
> {
    if args.len() >= 2 && args[1] == "run"@ {
        match scan_run(args, 2, empty_run_state()) {
            Some(st) => match run_model(st) {
                Some(m) => Some(CliModel::Run(m)),
                None => None,
            },
            None => None,
        }
    } else if args.len() >= 2 && args[1] == "api"@ {
        match scan_api(args, 2, None, false, false) {
            Some((bind, verbose)) => Some(
                CliModel::Api {
                    bind_addr: match bind {
                        Some(b) => b,
                        None => match env_bind {
                            Some(e) => e,
                            None => default_bind_addr(),
                        },
                    },
                    verbose,
                },
            ),
            None => None,
        }
    } else {
        None
    }
}

/// An accepted `run` command line never holds both `--json` and a format:
/// with `--json` the format is the default one.
pub proof fn lemma_json_excludes_format(args: Seq<Seq<char>>, env_bind: Option<Seq<char>>)
    ensures
        parse_command_line(args, env_bind) matches Some(CliModel::Run(m)) ==> (m.json ==> m.format
            == Format::List),
{
}

proof fn lemma_scan_run_tail(t1: Seq<Seq<char>>, t2: Seq<Seq<char>>, i: nat, st: RunState)
    requires
        t1.len() == t2.len(),
        i >= 1,
        forall|k: int| 1 <= k < t1.len() ==> t1[k] == t2[k],
    ensures
        scan_run(t1, i, st) == scan_run(t2, i, st),
    decreases t1.len() + 2 - i,
{
    if i < t1.len() {
        assert(next_value(t1, (i + 1) as int) == next_value(t2, (i + 1) as int));
        let t = t1[i as int];
        let next = next_value(t1, (i + 1) as int);
        let step = if is_long(t) {
            long_step(t, next, st)
        } else if is_short(t) {
            short_step(t, 1, next, st)
        } else {
            None
        };
        if let Some((s2, used)) = step {
            lemma_scan_run_tail(t1, t2, (i + 1 + if used { 1nat } else { 0nat }) as nat, s2);
        }
    }
}

proof fn lemma_scan_api_tail(
    t1: Seq<Seq<char>>,
    t2: Seq<Seq<char>>,
    i: nat,
    bind: Option<Seq<char>>,
    verbose: bool,
    trailing: bool,
)
    requires
        t1.len() == t2.len(),
        i >= 1,
        forall|k: int| 1 <= k < t1.len() ==> t1[k] == t2[k],
    ensures
        scan_api(t1, i, bind, verbose, trailing) == scan_api(t2, i, bind, verbose, trailing),
    decreases t1.len() - i,
{
    if i < t1.len() {
        let t = t1[i as int];
        lemma_scan_api_tail(t1, t2, i + 1, bind, verbose, true);
        lemma_scan_api_tail(t1, t2, i + 1, bind, true, trailing);
        lemma_scan_api_tail(t1, t2, i + 1, Some(t), verbose, trailing);
    }
}

/// The program name does not change what a command line means.
pub proof fn lemma_program_name_irrelevant(
    args: Seq<Seq<char>>,
    name: Seq<char>,
    env_bind: Option<Seq<char>>,
)
    requires
        args.len() >= 1,
    ensures
        parse_command_line(args.update(0, name), env_bind) == parse_command_line(args, env_bind),
{
    let other = args.update(0, name);
    assert forall|k: int| 1 <= k < args.len() implies other[k] == args[k] by {}
    lemma_scan_run_tail(other, args, 2, empty_run_state());
    lemma_scan_api_tail(other, args, 2, None, false, false);
}

proof fn lemma_short_step_uses_next(t: Seq<char>, k: int, next: Option<Seq<char>>, st: RunState)
    ensures
        short_step(t, k, next, st) matches Some((_, used)) && used ==> next is Some,
    decreases t.len() - k,
{
    if 0 <= k < t.len() {
        if let Some(o) = run_short_option(t[k]) {
            if !takes_value(o) {
                if let Some(s2) = set_flag(st, o) {
                    lemma_short_step_uses_next(t, k + 1, next, s2);
                }
            }
        }
    }
}

/// The scan of `run` stops at every token that cannot be a value: it only
/// skips a token taken as the value of the option before it.
proof fn lemma_scan_run_visits(toks: Seq<Seq<char>>, i: nat, st: RunState, k: nat)
    requires
        i <= k < toks.len(),
        !is_value_token(toks[k as int]),
        scan_run(toks, i, st) is Some,
    ensures
        exists|st2: RunState| scan_run(toks, k, st2) == scan_run(toks, i, st),
    decreases k - i,
{
    if i == k {
        assert(scan_run(toks, k, st) == scan_run(toks, i, st));
    } else {
        let t = toks[i as int];
        let next = next_value(toks, (i + 1) as int);
        let step = if is_long(t) {
            long_step(t, next, st)
        } else if is_short(t) {
            short_step(t, 1, next, st)
        } else {
            None
        };
        lemma_short_step_uses_next(t, 1, next, st);
        if let Some((s2, used)) = step {
            let i2 = (i + 1 + if used { 1nat } else { 0nat }) as nat;
            assert(scan_run(toks, i, st) == scan_run(toks, i2, s2));
            if used {
                assert(next is Some);
                assert(i + 1 != k);
            }
            lemma_scan_run_visits(toks, i2, s2, k);
        }
    }
}

proof fn lemma_first_equals_none(t: Seq<char>)
    requires
        forall|k: int| 0 <= k < t.len() ==> t[k] != '=',
    ensures
        first_equals(t) is None,
    decreases t.len(),
{
    if t.len() > 0 {
        lemma_first_equals_none(t.drop_first());
    }
}

proof fn lemma_first_equals_at(t: Seq<char>, e: int)
    requires
        0 <= e < t.len(),
        t[e] == '=',
        forall|k: int| 0 <= k < e ==> t[k] != '=',
    ensures
        first_equals(t) == Some(e),
    decreases t.len(),
{
    if e > 0 {
        lemma_first_equals_at(t.drop_first(), e - 1);
    }
}

/// A final format option `opt` (the tokens `-f v`, `--format v` or
/// `--format=v`) of an accepted `run` line gives that line the format
/// named `v`.
proof fn lemma_final_format(pre: Seq<Seq<char>>, opt: Seq<Seq<char>>, v: Seq<char>, env: Option<Seq<char>>)
    requires
        v == "list"@ || v == "gophish"@,
        opt == seq!["-f"@, v] || opt == seq!["--format"@, v] || opt == seq!["--format="@ + v],
    ensures
        parse_command_line(pre + opt, env) matches Some(CliModel::Run(m)) ==> Some(m.format)
            == format_named(v),
{
    reveal_strlit("-f");
    reveal_strlit("--format");
    reveal_strlit("--format=");
    reveal_strlit("list");
    reveal_strlit("gophish");
    reveal_strlit("run");
    reveal_strlit("api");
    reveal_strlit("format");
    reveal_strlit("input");
    reveal_strlit("output");
    assert("format"@.len() == 6 && "input"@.len() == 5);
    assert("format"@ != "input"@);
    assert("format"@[0] != "output"@[0]);
    let toks = pre + opt;
    let n = toks.len();
    if let Some(CliModel::Run(m)) = parse_command_line(toks, env) {
        assert(toks[1] == "run"@);
        if pre.len() < 2 {
            assert(toks[1] == opt[1 - pre.len()]);
            assert(false);
        }
        let st = scan_run(toks, 2, empty_run_state())->0;
        assert(run_model(st) == Some(m));
        let k = (n - opt.len()) as nat;
        assert(toks[k as int] == opt[0]);
        assert(!is_value_token(opt[0]));
        lemma_scan_run_visits(toks, 2, empty_run_state(), k);
        let st2 = choose|st2: RunState| scan_run(toks, k, st2) == scan_run(toks, 2, empty_run_state());
        let t = opt[0];
        assert(!is_escape(t));
        // The option sets the format of the state reached before it, and
        // ends the line.
        let r = set_value(st2, RunOption::Format, v);
        if opt.len() == 2 {
            assert(toks[k + 1int] == v);
            assert(next_value(toks, k + 1int) == Some(v));
            if t == "-f"@ {
                assert(is_short(t) && !is_long(t));
                assert(run_short_option(t[1]) == Some(RunOption::Format));
                assert(t.subrange(2, 2) =~= Seq::<char>::empty());
                assert(short_step(t, 1, Some(v), st2) == with_next(r));
            } else {
                let body = t.skip(2);
                assert(body =~= "format"@);
                lemma_first_equals_none(body);
                assert(run_long_option(body) == Some(RunOption::Format));
                assert(is_long(t));
                assert(long_step(t, Some(v), st2) == with_next(r));
            }
            if let Some(s3) = r {
                assert(scan_run(toks, k, st2) == scan_run(toks, (k + 2) as nat, s3));
                assert(scan_run(toks, (k + 2) as nat, s3) == Some(s3));
            }
        } else {
            let body = t.skip(2);
            assert(t =~= "--format="@ + v);
            assert(body[6] == '=');
            lemma_first_equals_at(body, 6);
            assert(body.take(6) =~= "format"@);
            assert(body.skip(7) =~= v);
            assert(run_long_option(body.take(6)) == Some(RunOption::Format));
            assert(is_long(t));
            assert(long_step(t, next_value(toks, k + 1int), st2) == without_next(r));
            if let Some(s3) = r {
                assert(scan_run(toks, k, st2) == scan_run(toks, (k + 1) as nat, s3));
                assert(scan_run(toks, (k + 1) as nat, s3) == Some(s3));
            }
        }
        assert(r == Some(st));
        assert(st.format == format_named(v));
    }
}

/// The format names map to the formats one to one: an accepted `run` line
/// that ends with the format option `-f list`, `--format list` or
/// `--format=list` writes a list, and with `gophish` a GoPhish CSV.
pub proof fn lemma_format_option(pre: Seq<Seq<char>>, env: Option<Seq<char>>)
    ensures
        parse_command_line(pre + seq!["-f"@, "list"@], env) matches Some(CliModel::Run(m)) ==> m.format
            == Format::List,
        parse_command_line(pre + seq!["--format"@, "list"@], env) matches Some(CliModel::Run(m))
            ==> m.format == Format::List,
        parse_command_line(pre + seq!["--format=list"@], env) matches Some(CliModel::Run(m))
            ==> m.format == Format::List,
        parse_command_line(pre + seq!["-f"@, "gophish"@], env) matches Some(CliModel::Run(m))
            ==> m.format == Format::Gophish,
        parse_command_line(pre + seq!["--format"@, "gophish"@], env) matches Some(CliModel::Run(m))
            ==> m.format == Format::Gophish,
        parse_command_line(pre + seq!["--format=gophish"@], env) matches Some(CliModel::Run(m))
            ==> m.format == Format::Gophish,
{
    reveal_strlit("list");
    reveal_strlit("gophish");
    reveal_strlit("--format=");
    reveal_strlit("--format=list");
    reveal_strlit("--format=gophish");
    assert("--format=list"@ =~= "--format="@ + "list"@);
    assert("--format=gophish"@ =~= "--format="@ + "gophish"@);
    lemma_final_format(pre, seq!["-f"@, "list"@], "list"@, env);
    lemma_final_format(pre, seq!["--format"@, "list"@], "list"@, env);
    lemma_final_format(pre, seq!["--format="@ + "list"@], "list"@, env);
    lemma_final_format(pre, seq!["-f"@, "gophish"@], "gophish"@, env);
    lemma_final_format(pre, seq!["--format"@, "gophish"@], "gophish"@, env);
    lemma_final_format(pre, seq!["--format="@ + "gophish"@], "gophish"@, env);
}

/// A final method option `opt` (the tokens `-m v`, `--method v` or
/// `--method=v`) of an accepted `run` line gives that line the
/// method named `v`.
proof fn lemma_final_method(pre: Seq<Seq<char>>, opt: Seq<Seq<char>>, v: Seq<char>, env: Option<Seq<char>>)
    requires
        v == "regex"@ || v == "mx"@ || v == "smtp"@,
        opt == seq!["-m"@, v] || opt == seq!["--method"@, v] || opt == seq!["--method="@ + v],
    ensures
        parse_command_line(pre + opt, env) matches Some(CliModel::Run(m)) ==> Some(m.method)
            == method_named(v),
{
    reveal_strlit("-m");
    reveal_strlit("--method");
    reveal_strlit("--method=");
    reveal_strlit("regex");
    reveal_strlit("mx");
    reveal_strlit("smtp");
    reveal_strlit("run");
    reveal_strlit("api");
    reveal_strlit("method");
    reveal_strlit("input");
    reveal_strlit("output");
    reveal_strlit("json");
    reveal_strlit("format");
    assert("method"@.len() == 6 && "input"@.len() == 5 && "json"@.len() == 4);
    assert("method"@ != "input"@);
    assert("method"@[0] != "output"@[0]);
    assert("method"@[0] != "format"@[0]);
    let toks = pre + opt;
    let n = toks.len();
    if let Some(CliModel::Run(m)) = parse_command_line(toks, env) {
        assert(toks[1] == "run"@);
        if pre.len() < 2 {
            assert(toks[1] == opt[1 - pre.len()]);
            assert("run"@.len() == 3 && "-m"@.len() == 2 && "--method"@.len() == 8);
            assert("regex"@.len() == 5 && "mx"@.len() == 2 && "smtp"@.len() == 4);
            assert(opt[1 - pre.len()].len() != 3);
            assert(false);
        }
        let st = scan_run(toks, 2, empty_run_state())->0;
        assert(run_model(st) == Some(m));
        let k = (n - opt.len()) as nat;
        assert(toks[k as int] == opt[0]);
        assert(!is_value_token(opt[0]));
        lemma_scan_run_visits(toks, 2, empty_run_state(), k);
        let st2 = choose|st2: RunState| scan_run(toks, k, st2) == scan_run(toks, 2, empty_run_state());
        let t = opt[0];
        assert(!is_escape(t));
        // The option sets the format of the state reached before it, and
        // ends the line.
        let r = set_value(st2, RunOption::Method, v);
        if opt.len() == 2 {
            assert(toks[k + 1int] == v);
            assert(next_value(toks, k + 1int) == Some(v));
            if t == "-m"@ {
                assert(is_short(t) && !is_long(t));
                assert(run_short_option(t[1]) == Some(RunOption::Method));
                assert(t.subrange(2, 2) =~= Seq::<char>::empty());
                assert(short_step(t, 1, Some(v), st2) == with_next(r));
            } else {
                let body = t.skip(2);
                assert(body =~= "method"@);
                lemma_first_equals_none(body);
                assert(run_long_option(body) == Some(RunOption::Method));
                assert(is_long(t));
                assert(long_step(t, Some(v), st2) == with_next(r));
            }
            if let Some(s3) = r {
                assert(scan_run(toks, k, st2) == scan_run(toks, (k + 2) as nat, s3));
                assert(scan_run(toks, (k + 2) as nat, s3) == Some(s3));
            }
        } else {
            let body = t.skip(2);
            assert(t =~= "--method="@ + v);
            assert(body[6] == '=');
            lemma_first_equals_at(body, 6);
            assert(body.take(6) =~= "method"@);
            assert(body.skip(7) =~= v);
            assert(run_long_option(body.take(6)) == Some(RunOption::Method));
            assert(is_long(t));
            assert(long_step(t, next_value(toks, k + 1int), st2) == without_next(r));
            if let Some(s3) = r {
                assert(scan_run(toks, k, st2) == scan_run(toks, (k + 1) as nat, s3));
                assert(scan_run(toks, (k + 1) as nat, s3) == Some(s3));
            }
        }
        assert(r == Some(st));
        assert(st.method == method_named(v));
    }
}

/// The method names map to the methods one to one: an accepted `run` line
/// that ends with the method option `-m regex`, `--method regex` or
/// `--method=regex` validates by syntax, with `mx` by MX lookup, and with
/// `smtp` by the SMTP conversation.
pub proof fn lemma_method_option(pre: Seq<Seq<char>>, env: Option<Seq<char>>)
    ensures
        parse_command_line(pre + seq!["-m"@, "regex"@], env) matches Some(CliModel::Run(m)) ==> m.method
            == Method::Regex,
        parse_command_line(pre + seq!["--method"@, "regex"@], env) matches Some(CliModel::Run(m))
            ==> m.method == Method::Regex,
        parse_command_line(pre + seq!["--method=regex"@], env) matches Some(CliModel::Run(m))
            ==> m.method == Method::Regex,
        parse_command_line(pre + seq!["-m"@, "mx"@], env) matches Some(CliModel::Run(m)) ==> m.method
            == Method::Mx,
        parse_command_line(pre + seq!["--method"@, "mx"@], env) matches Some(CliModel::Run(m))
            ==> m.method == Method::Mx,
        parse_command_line(pre + seq!["--method=mx"@], env) matches Some(CliModel::Run(m))
            ==> m.method == Method::Mx,
        parse_command_line(pre + seq!["-m"@, "smtp"@], env) matches Some(CliModel::Run(m)) ==> m.method
            == Method::Smtp,
        parse_command_line(pre + seq!["--method"@, "smtp"@], env) matches Some(CliModel::Run(m))
            ==> m.method == Method::Smtp,
        parse_command_line(pre + seq!["--method=smtp"@], env) matches Some(CliModel::Run(m))
            ==> m.method == Method::Smtp,
{
    reveal_strlit("regex");
    reveal_strlit("mx");
    reveal_strlit("smtp");
    reveal_strlit("--method=");
    reveal_strlit("--method=regex");
    reveal_strlit("--method=mx");
    reveal_strlit("--method=smtp");
    assert("--method=regex"@ =~= "--method="@ + "regex"@);
    assert("--method=mx"@ =~= "--method="@ + "mx"@);
    assert("--method=smtp"@ =~= "--method="@ + "smtp"@);
    lemma_final_method(pre, seq!["-m"@, "regex"@], "regex"@, env);
    lemma_final_method(pre, seq!["--method"@, "regex"@], "regex"@, env);
    lemma_final_method(pre, seq!["--method="@ + "regex"@], "regex"@, env);
    lemma_final_method(pre, seq!["-m"@, "mx"@], "mx"@, env);
    lemma_final_method(pre, seq!["--method"@, "mx"@], "mx"@, env);
    lemma_final_method(pre, seq!["--method="@ + "mx"@], "mx"@, env);
    lemma_final_method(pre, seq!["-m"@, "smtp"@], "smtp"@, env);
    lemma_final_method(pre, seq!["--method"@, "smtp"@], "smtp"@, env);
    lemma_final_method(pre, seq!["--method="@ + "smtp"@], "smtp"@, env);
}

/// A final flag `t` (`-v`/`--verbose`, `-d`/`--disable-wildcard`,
/// `-j`/`--json`) of an accepted `run` line sets its option `o`.
proof fn lemma_final_flag(pre: Seq<Seq<char>>, t: Seq<char>, o: RunOption, env: Option<Seq<char>>)
    requires
        (o == RunOption::Verbose && (t == "-v"@ || t == "--verbose"@)) || (o
            == RunOption::DisableWildcard && (t == "-d"@ || t == "--disable-wildcard"@)) || (o
            == RunOption::Json && (t == "-j"@ || t == "--json"@)),
    ensures
        parse_command_line(pre + seq![t], env) matches Some(CliModel::Run(m)) ==> {
            &&& o == RunOption::Verbose ==> m.verbose
            &&& o == RunOption::DisableWildcard ==> m.disable_wildcard
            &&& o == RunOption::Json ==> m.json
        },
{
    reveal_strlit("-v");
    reveal_strlit("--verbose");
    reveal_strlit("-d");
    reveal_strlit("--disable-wildcard");
    reveal_strlit("-j");
    reveal_strlit("--json");
    reveal_strlit("run");
    reveal_strlit("input");
    reveal_strlit("output");
    reveal_strlit("format");
    reveal_strlit("json");
    reveal_strlit("method");
    reveal_strlit("disable-wildcard");
    reveal_strlit("verbose");
    assert("input"@.len() == 5 && "output"@.len() == 6 && "format"@.len() == 6 && "json"@.len()
        == 4 && "method"@.len() == 6 && "disable-wildcard"@.len() == 16 && "verbose"@.len() == 7);
    assert("run"@.len() == 3);
    let toks = pre + seq![t];
    let n = toks.len();
    if let Some(CliModel::Run(m)) = parse_command_line(toks, env) {
        assert(toks[1] == "run"@);
        if pre.len() < 2 {
            assert(pre.len() == 1);
            assert(toks[1] == t);
            assert(t.len() != 3);
            assert(false);
        }
        let st = scan_run(toks, 2, empty_run_state())->0;
        assert(run_model(st) == Some(m));
        let k = (n - 1) as nat;
        assert(toks[k as int] == t);
        assert(!is_value_token(t));
        lemma_scan_run_visits(toks, 2, empty_run_state(), k);
        let st2 = choose|st2: RunState| scan_run(toks, k, st2) == scan_run(toks, 2, empty_run_state());
        assert(!is_escape(t));
        assert(next_value(toks, k + 1int) is None);
        let r = set_flag(st2, o);
        if t.len() == 2 {
            assert(is_short(t) && !is_long(t));
            assert(run_short_option(t[1]) == Some(o));
            if let Some(s2) = r {
                assert(short_step(t, 2, None, s2) == Some((s2, false)));
            }
            assert(short_step(t, 1, None, st2) == without_next(r));
        } else {
            let body = t.skip(2);
            lemma_first_equals_none(body);
            if o == RunOption::Verbose {
                assert(body =~= "verbose"@);
            } else if o == RunOption::DisableWildcard {
                assert(body =~= "disable-wildcard"@);
            } else {
                assert(body =~= "json"@);
                assert(body != "input"@ && body != "output"@ && body != "format"@);
            }
            assert(run_long_option(body) == Some(o));
            assert(is_long(t));
            assert(long_step(t, None, st2) == without_next(r));
        }
        if let Some(s3) = r {
            assert(scan_run(toks, k, st2) == scan_run(toks, (k + 1) as nat, s3));
            assert(scan_run(toks, (k + 1) as nat, s3) == Some(s3));
        }
        assert(r == Some(st));
    }
}

/// The short and long forms of the `run` flags set their options: an
/// accepted `run` line that ends with `-v` or `--verbose` is verbose, with
/// `-d` or `--disable-wildcard` has the catch-all detection disabled, and
/// with `-j` or `--json` writes JSON.
pub proof fn lemma_flag_options(pre: Seq<Seq<char>>, env: Option<Seq<char>>)
    ensures
        parse_command_line(pre + seq!["-v"@], env) matches Some(CliModel::Run(m)) ==> m.verbose,
        parse_command_line(pre + seq!["--verbose"@], env) matches Some(CliModel::Run(m)) ==> m.verbose,
        parse_command_line(pre + seq!["-d"@], env) matches Some(CliModel::Run(m)) ==> m.disable_wildcard,
        parse_command_line(pre + seq!["--disable-wildcard"@], env) matches Some(CliModel::Run(m))
            ==> m.disable_wildcard,
        parse_command_line(pre + seq!["-j"@], env) matches Some(CliModel::Run(m)) ==> m.json,
        parse_command_line(pre + seq!["--json"@], env) matches Some(CliModel::Run(m)) ==> m.json,
{
    lemma_final_flag(pre, "-v"@, RunOption::Verbose, env);
    lemma_final_flag(pre, "--verbose"@, RunOption::Verbose, env);
    lemma_final_flag(pre, "-d"@, RunOption::DisableWildcard, env);
    lemma_final_flag(pre, "--disable-wildcard"@, RunOption::DisableWildcard, env);
    lemma_final_flag(pre, "-j"@, RunOption::Json, env);
    lemma_final_flag(pre, "--json"@, RunOption::Json, env);
}

/// A final input or output option `opt` (`-i v`, `--input v`,
/// `--input=v`, and the same for `-o`/`--output`) of an accepted `run` line
/// gives that option the value `v`.
proof fn lemma_final_value(
    pre: Seq<Seq<char>>,
    opt: Seq<Seq<char>>,
    o: RunOption,
    v: Seq<char>,
    env: Option<Seq<char>>,
)
    requires
        pre.len() >= 1,
        (o == RunOption::Input && (opt == seq!["-i"@, v] || opt == seq!["--input"@, v] || opt
            == seq!["--input="@ + v])) || (o == RunOption::Output && (opt == seq!["-o"@, v] || opt
            == seq!["--output"@, v] || opt == seq!["--output="@ + v])),
    ensures
        parse_command_line(pre + opt, env) matches Some(CliModel::Run(m)) ==> {
            &&& o == RunOption::Input ==> m.input == Some(v)
            &&& o == RunOption::Output ==> m.output == Some(v)
        },
{
    reveal_strlit("-i");
    reveal_strlit("--input");
    reveal_strlit("--input=");
    reveal_strlit("-o");
    reveal_strlit("--output");
    reveal_strlit("--output=");
    reveal_strlit("run");
    reveal_strlit("input");
    reveal_strlit("output");
    assert("input"@.len() == 5 && "output"@.len() == 6 && "run"@.len() == 3);
    let toks = pre + opt;
    let n = toks.len();
    if let Some(CliModel::Run(m)) = parse_command_line(toks, env) {
        assert(toks[1] == "run"@);
        let st = scan_run(toks, 2, empty_run_state())->0;
        assert(run_model(st) == Some(m));
        if pre.len() < 2 {
            // Then `run` would be the option.
            assert(toks[1] == opt[0]);
            assert(opt[0].len() != 3);
            assert(false);
        }
        let k = (n - opt.len()) as nat;
        assert(toks[k as int] == opt[0]);
        assert(!is_value_token(opt[0]));
        lemma_scan_run_visits(toks, 2, empty_run_state(), k);
        let st2 = choose|st2: RunState| scan_run(toks, k, st2) == scan_run(toks, 2, empty_run_state());
        let t = opt[0];
        assert(!is_escape(t));
        let r = set_value(st2, o, v);
        let name: Seq<char> = if o == RunOption::Input { "input"@ } else { "output"@ };
        assert(run_long_option(name) == Some(o));
        if opt.len() == 2 {
            assert(toks[k + 1int] == v);
            let next = next_value(toks, k + 1int);
            if t.len() == 2 {
                assert(is_short(t) && !is_long(t));
                assert(run_short_option(t[1]) == Some(o));
                assert(t.subrange(2, 2) =~= Seq::<char>::empty());
                assert(short_step(t, 1, next, st2) == match next {
                    Some(w) => with_next(set_value(st2, o, w)),
                    None => None,
                });
            } else {
                let body = t.skip(2);
                assert(body =~= name);
                lemma_first_equals_none(body);
                assert(is_long(t));
            }
            if let Some(w) = next {
                assert(w == v);
                if let Some(s3) = r {
                    assert(scan_run(toks, k, st2) == scan_run(toks, (k + 2) as nat, s3));
                    assert(scan_run(toks, (k + 2) as nat, s3) == Some(s3));
                }
            }
        } else {
            let body = t.skip(2);
            let e = name.len() as int;
            assert(body =~= name + seq!['='] + v);
            assert(body[e] == '=');
            lemma_first_equals_at(body, e);
            assert(body.take(e) =~= name);
            assert(body.skip(e + 1) =~= v);
            assert(is_long(t));
            assert(long_step(t, next_value(toks, k + 1int), st2) == without_next(r));
            if let Some(s3) = r {
                assert(scan_run(toks, k, st2) == scan_run(toks, (k + 1) as nat, s3));
                assert(scan_run(toks, (k + 1) as nat, s3) == Some(s3));
            }
        }
        assert(r == Some(st));
    }
}

/// The input and output options keep their values as given: an accepted
/// `run` line that ends with `-i v`, `--input v` or `--input=v` reads the
/// file `v`, and with `-o v`, `--output v` or `--output=v` writes to `v`.
/// (`pre` holds at least the program name.)
pub proof fn lemma_input_output_options(pre: Seq<Seq<char>>, v: Seq<char>, env: Option<Seq<char>>)
    requires
        pre.len() >= 1,
    ensures
        parse_command_line(pre + seq!["-i"@, v], env) matches Some(CliModel::Run(m)) ==> m.input
            == Some(v),
        parse_command_line(pre + seq!["--input"@, v], env) matches Some(CliModel::Run(m))
            ==> m.input == Some(v),
        parse_command_line(pre + seq!["--input="@ + v], env) matches Some(CliModel::Run(m))
            ==> m.input == Some(v),
        parse_command_line(pre + seq!["-o"@, v], env) matches Some(CliModel::Run(m)) ==> m.output
            == Some(v),
        parse_command_line(pre + seq!["--output"@, v], env) matches Some(CliModel::Run(m))
            ==> m.output == Some(v),
        parse_command_line(pre + seq!["--output="@ + v], env) matches Some(CliModel::Run(m))
            ==> m.output == Some(v),
{
    lemma_final_value(pre, seq!["-i"@, v], RunOption::Input, v, env);
    lemma_final_value(pre, seq!["--input"@, v], RunOption::Input, v, env);
    lemma_final_value(pre, seq!["--input="@ + v], RunOption::Input, v, env);
    lemma_final_value(pre, seq!["-o"@, v], RunOption::Output, v, env);
    lemma_final_value(pre, seq!["--output"@, v], RunOption::Output, v, env);
    lemma_final_value(pre, seq!["--output="@ + v], RunOption::Output, v, env);
}

proof fn lemma_scan_api_verbose_forms(
    t1: Seq<Seq<char>>,
    k: int,
    i: nat,
    bind: Option<Seq<char>>,
    verbose: bool,
    trailing: bool,
)
    requires
        0 <= k < t1.len(),
        t1[k] == "-v"@,
        forall|j: int| i <= j < k ==> t1[j] != "--"@,
        i <= k ==> !trailing,
    ensures
        scan_api(t1.update(k, "--verbose"@), i, bind, verbose, trailing) == scan_api(
            t1,
            i,
            bind,
            verbose,
            trailing,
        ),
    decreases t1.len() - i,
{
    reveal_strlit("-v");
    reveal_strlit("--verbose");
    reveal_strlit("--");
    let t2 = t1.update(k, "--verbose"@);
    if i < t1.len() {
        let t = t1[i as int];
        if i as int != k {
            assert(t2[i as int] == t);
            if i < k {
                assert(t != "--"@);
                if is_escape(t) {
                    assert(t =~= "--"@);
                }
            }
        } else {
            assert(is_short(t) && !is_escape(t));
            assert(is_long(t2[k]) && !is_escape(t2[k]));
        }
        if i as int >= k {
            lemma_scan_api_verbose_forms(t1, k, i + 1, bind, verbose, true);
        }
        lemma_scan_api_verbose_forms(t1, k, i + 1, bind, true, trailing);
        lemma_scan_api_verbose_forms(t1, k, i + 1, Some(t), verbose, trailing);
        lemma_scan_api_verbose_forms(t1, k, i + 1, bind, verbose, trailing);
    }
}

/// On the `api` command line the short and long forms of the verbose flag
/// are interchangeable: writing `--verbose` for a `-v` that stands before
/// any `--` changes nothing. In particular `api --verbose` and `api -v`
/// both ask for the default bind address with verbose logging.
pub proof fn lemma_api_verbose_forms(args: Seq<Seq<char>>, k: int, p: Seq<char>, env: Option<Seq<char>>)
    requires
        args.len() >= 2,
        args[1] == "api"@,
        2 <= k < args.len(),
        args[k] == "-v"@,
        forall|j: int| 2 <= j < k ==> args[j] != "--"@,
    ensures
        parse_command_line(args.update(k, "--verbose"@), env) == parse_command_line(args, env),
        parse_command_line(seq![p, "api"@, "--verbose"@], None) == Some(
            CliModel::Api { bind_addr: "0.0.0.0:8080"@, verbose: true },
        ),
        parse_command_line(seq![p, "api"@, "-v"@], None) == Some(
            CliModel::Api { bind_addr: "0.0.0.0:8080"@, verbose: true },
        ),
{
    reveal_strlit("api");
    reveal_strlit("run");
    reveal_strlit("-v");
    reveal_strlit("--verbose");
    assert("api"@ != "run"@) by {
        assert("api"@[0] != "run"@[0]);
    }
    assert(args.update(k, "--verbose"@)[1] == args[1]);
    lemma_scan_api_verbose_forms(args, k, 2, None, false, false);
    let short = seq![p, "api"@, "-v"@];
    assert(short[2] == "-v"@);
    lemma_scan_api_verbose_forms(short, 2, 2, None, false, false);
    assert(short.update(2, "--verbose"@) =~= seq![p, "api"@, "--verbose"@]);
    assert(is_short("-v"@) && !is_escape("-v"@));
    assert(scan_api(short, 3, None, true, false) == Some((None::<Seq<char>>, true)));
    assert(scan_api(short, 2, None, false, false) == Some((None::<Seq<char>>, true)));
}

// ---------------------------------------------------------------------------
// Executable parser
// ---------------------------------------------------------------------------

/// Whether `t` holds exactly the characters of `lit`.
fn same_text(t: &Vec<char>, lit: &str) -> (b: bool)
    ensures
        b == (t@ == lit@),
{
    let l = chars_of(lit);
    if t.len() != l.len() {
        return false;
    }
    let mut i: usize = 0;
    while i < t.len()
        invariant
            i <= t.len() == l.len(),
            l@ == lit@,
            forall|k: int| 0 <= k < i ==> t@[k] == l@[k],
        decreases t.len() - i,
    {
        if t[i] != l[i] {
            return false;
        }
        i += 1;
    }
    assert(t@ =~= l@);
    true
}

fn long_option(name: &Vec<char>) -> (r: Option<RunOption>)
    ensures
        r == run_long_option(name@),
{
    if same_text(name, "input") {
        Some(RunOption::Input)
    } else if same_text(name, "output") {
        Some(RunOption::Output)
    } else if same_text(name, "format") {
        Some(RunOption::Format)
    } else if same_text(name, "json") {
        Some(RunOption::Json)
    } else if same_text(name, "method") {
        Some(RunOption::Method)
    } else if same_text(name, "disable-wildcard") {
        Some(RunOption::DisableWildcard)
    } else if same_text(name, "verbose") {
        Some(RunOption::Verbose)
    } else {
        None
    }
}

fn short_option(c: char) -> (r: Option<RunOption>)
    ensures
        r == run_short_option(c),
{
    if c == 'i' {
        Some(RunOption::Input)
    } else if c == 'o' {
        Some(RunOption::Output)
    } else if c == 'f' {
        Some(RunOption::Format)
    } else if c == 'j' {
        Some(RunOption::Json)
    } else if c == 'm' {
        Some(RunOption::Method)
    } else if c == 'd' {
        Some(RunOption::DisableWildcard)
    } else if c == 'v' {
        Some(RunOption::Verbose)
    } else {
        None
    }
}

fn option_takes_value(o: RunOption) -> (b: bool)
    ensures
        b == takes_value(o),
{
    o == RunOption::Input || o == RunOption::Output || o == RunOption::Format || o
        == RunOption::Method
}

/// Options of `run` read so far.
struct RunProgress {
    input: Option<Vec<char>>,
    output: Option<Vec<char>>,
    format: Option<Format>,
    json: bool,
    method: Option<Method>,
    disable_wildcard: bool,
    verbose: bool,
}

spec fn opt_chars(o: Option<Vec<char>>) -> Option<Seq<char>> {
    match o {
        Some(v) => Some(v@),
        None => None,
    }
}

impl RunProgress {
    spec fn state(&self) -> RunState {
        RunState {
            input: opt_chars(self.input),
            output: opt_chars(self.output),
            format: self.format,
            json: self.json,
            method: self.method,
            disable_wildcard: self.disable_wildcard,
            verbose: self.verbose,
        }
    }

    fn set_value(&mut self, o: RunOption, v: Vec<char>) -> (ok: bool)
        ensures
            ok ==> set_value(old(self).state(), o, v@) == Some(final(self).state()),
            !ok ==> set_value(old(self).state(), o, v@) is None,
    {
        match o {
            RunOption::Input => {
                if self.input.is_some() {
                    return false;
                }
                self.input = Some(v);
                true
            },
            RunOption::Output => {
                if self.output.is_some() {
                    return false;
                }
                self.output = Some(v);
                true
            },
            RunOption::Format => {
                if self.format.is_some() {
                    return false;
                }
                if same_text(&v, "gophish") {
                    self.format = Some(Format::Gophish);
                    true
                } else if same_text(&v, "list") {
                    self.format = Some(Format::List);
                    true
                } else {
                    false
                }
            },
            RunOption::Method => {
                if self.method.is_some() {
                    return false;
                }
                if same_text(&v, "regex") {
                    self.method = Some(Method::Regex);
                    true
                } else if same_text(&v, "mx") {
                    self.method = Some(Method::Mx);
                    true
                } else if same_text(&v, "smtp") {
                    self.method = Some(Method::Smtp);
                    true
                } else {
                    false
                }
            },
            _ => false,
        }
    }

    fn set_flag(&mut self, o: RunOption) -> (ok: bool)
        ensures
            ok ==> set_flag(old(self).state(), o) == Some(final(self).state()),
            !ok ==> set_flag(old(self).state(), o) is None,
    {
        match o {
            RunOption::Json => {
                if self.json {
                    return false;
                }
                self.json = true;
                true
            },
            RunOption::DisableWildcard => {
                if self.disable_wildcard {
                    return false;
                }
                self.disable_wildcard = true;
                true
            },
            RunOption::Verbose => {
                if self.verbose {
                    return false;
                }
                self.verbose = true;
                true
            },
            _ => false,
        }
    }
}

fn value_token(t: &Vec<char>) -> (b: bool)
    ensures
        b == is_value_token(t@),
{
    t.len() == 0 || t[0] != '-' || t.len() == 1
}

/// The token after position `i`, when it can be a value.
fn next_value_exec(toks: &Vec<Vec<char>>, i: usize) -> (r: Option<Vec<char>>)
    ensures
        opt_chars(r) == next_value(crate::order::texts(toks@), i as int),
{
    if i < toks.len() && value_token(&toks[i]) {
        Some(toks[i].clone())
    } else {
        None
    }
}

/// Index of the first `=` in `t[from..]`, relative to `from`.
fn first_equals_exec(t: &Vec<char>, from: usize) -> (r: Option<usize>)
    requires
        from <= t.len(),
    ensures
        match r {
            Some(e) => first_equals(t@.skip(from as int)) == Some(e as int) && from + e < t.len(),
            None => first_equals(t@.skip(from as int)) is None,
        },
{
    let mut k: usize = from;
    while k < t.len()
        invariant
            from <= k <= t.len(),
            first_equals(t@.skip(from as int)) == match first_equals(t@.skip(k as int)) {
                Some(e) => Some(e + (k - from)),
                None => None,
            },
        decreases t.len() - k,
    {
        assert(t@.skip(k as int).drop_first() =~= t@.skip(k + 1));
        if t[k] == '=' {
            return Some(k - from);
        }
        k += 1;
    }
    assert(t@.skip(k as int).len() == 0);
    None
}

fn long_step_exec(t: &Vec<char>, next: Option<Vec<char>>, st: &mut RunProgress) -> (r: Option<bool>)
    requires
        is_long(t@),
    ensures
        match r {
            Some(used) => long_step(t@, opt_chars(next), old(st).state()) == Some(
                (final(st).state(), used),
            ),
            None => long_step(t@, opt_chars(next), old(st).state()) is None,
        },
        r == Some(true) ==> next is Some,
{
    let body_len = t.len() - 2;
    let eq = first_equals_exec(t, 2);
    let ghost body = t@.skip(2);
    let (name, value) = match eq {
        Some(e) => {
            assert(t@.subrange(2, 2 + e) =~= body.take(e as int));
            assert(t@.subrange(2 + e + 1, t@.len() as int) =~= body.skip(e + 1));
            (chars_range(t, 2, 2 + e), Some(chars_range(t, 2 + e + 1, t.len())))
        },
        None => {
            assert(t@.subrange(2, t@.len() as int) =~= body);
            (chars_range(t, 2, t.len()), None)
        },
    };
    match long_option(&name) {
        None => None,
        Some(o) => {
            if option_takes_value(o) {
                match value {
                    Some(v) => {
                        if st.set_value(o, v) {
                            Some(false)
                        } else {
                            None
                        }
                    },
                    None => match next {
                        Some(v) => {
                            if st.set_value(o, v) {
                                Some(true)
                            } else {
                                None
                            }
                        },
                        None => None,
                    },
                }
            } else if value.is_some() {
                None
            } else {
                if st.set_flag(o) {
                    Some(false)
                } else {
                    None
                }
            }
        },
    }
}

fn short_step_exec(t: &Vec<char>, next: Option<Vec<char>>, st: &mut RunProgress) -> (r: Option<bool>)
    requires
        is_short(t@),
    ensures
        match r {
            Some(used) => short_step(t@, 1, opt_chars(next), old(st).state()) == Some(
                (final(st).state(), used),
            ),
            None => short_step(t@, 1, opt_chars(next), old(st).state()) is None,
        },
        r == Some(true) ==> next is Some,
{
    let ghost nx = opt_chars(next);
    let ghost goal = short_step(t@, 1, nx, st.state());
    let mut k: usize = 1;
    while k < t.len()
        invariant
            1 <= k <= t.len(),
            nx == opt_chars(next),
            goal == short_step(t@, 1, nx, old(st).state()),
            goal == short_step(t@, k as int, nx, st.state()),
        decreases t.len() - k,
    {
        match short_option(t[k]) {
            None => {
                return None;
            },
            Some(o) => {
                if option_takes_value(o) {
                    if k + 1 < t.len() {
                        let ghost rest = t@.subrange(k + 1, t@.len() as int);
                        let v = if t[k + 1] == '=' {
                            assert(t@.subrange(k + 2, t@.len() as int) =~= rest.drop_first());
                            chars_range(t, k + 2, t.len())
                        } else {
                            chars_range(t, k + 1, t.len())
                        };
                        if st.set_value(o, v) {
                            return Some(false);
                        } else {
                            return None;
                        }
                    } else {
                        match next {
                            Some(v) => {
                                if st.set_value(o, v) {
                                    return Some(true);
                                } else {
                                    return None;
                                }
                            },
                            None => {
                                return None;
                            },
                        }
                    }
                } else {
                    if !st.set_flag(o) {
                        return None;
                    }
                }
            },
        }
        k += 1;
    }
    Some(false)
}

/// The characters of each argument.
fn token_chars(args: &Vec<String>) -> (toks: Vec<Vec<char>>)
    ensures
        crate::order::texts(toks@) == string_texts(args@),
{
    let mut toks: Vec<Vec<char>> = Vec::new();
    let mut k: usize = 0;
    while k < args.len()
        invariant
            k <= args.len(),
            crate::order::texts(toks@) =~= string_texts(args@).take(k as int),
        decreases args.len() - k,
    {
        let t = chars_of(args[k].as_str());
        let ghost before = crate::order::texts(toks@);
        toks.push(t);
        assert(crate::order::texts(toks@) =~= before.push(args@[k as int]@));
        k += 1;
    }
    assert(string_texts(args@).take(k as int) =~= string_texts(args@));
    toks
}

fn opt_string(o: Option<Vec<char>>) -> (r: Option<String>)
    ensures
        opt_text(r) == opt_chars(o),
{
    match o {
        Some(v) => Some(string_of(&v)),
        None => None,
    }
}

fn parse_run(toks: &Vec<Vec<char>>) -> (r: Option<RunArgs>)
    requires
        toks.len() >= 2,
    ensures
        ({
            let m = match scan_run(crate::order::texts(toks@), 2, empty_run_state()) {
                Some(st) => run_model(st),
                None => None,
            };
            match r {
                Some(a) => m == Some(
                    RunModel {
                        input: opt_text(a.input),
                        output: opt_text(a.output),
                        format: a.format,
                        json: a.json,
                        method: a.method,
                        disable_wildcard: a.disable_wildcard,
                        verbose: a.verbose,
                    },
                ),
                None => m is None,
            }
        }),
{
    let ghost ts = crate::order::texts(toks@);
    let mut st = RunProgress {
        input: None,
        output: None,
        format: None,
        json: false,
        method: None,
        disable_wildcard: false,
        verbose: false,
    };
    let ghost goal = scan_run(ts, 2, empty_run_state());
    assert(st.state() == empty_run_state());
    let mut i: usize = 2;
    while i < toks.len()
        invariant
            2 <= i <= toks.len(),
            ts == crate::order::texts(toks@),
            goal == scan_run(ts, 2, empty_run_state()),
            goal == scan_run(ts, i as nat, st.state()),
        decreases toks.len() - i,
    {
        let t = &toks[i];
        assert(ts[i as int] == t@);
        let tlen = t.len();
        if tlen == 2 && t[0] == '-' && t[1] == '-' {
            if i + 1 == toks.len() {
                i += 1;
            } else {
                return None;
            }
        } else {
            let next = next_value_exec(toks, i + 1);
            let step = if tlen > 2 && t[0] == '-' && t[1] == '-' {
                long_step_exec(t, next, &mut st)
            } else if tlen >= 2 && t[0] == '-' && t[1] != '-' {
                short_step_exec(t, next, &mut st)
            } else {
                None
            };
            match step {
                Some(used) => {
                    if used {
                        i += 2;
                    } else {
                        i += 1;
                    }
                },
                None => {
                    return None;
                },
            }
        }
    }
    if st.json && st.format.is_some() {
        return None;
    }
    let format = match st.format {
        Some(f) => f,
        None => Format::List,
    };
    let method = match st.method {
        Some(m) => m,
        None => Method::Smtp,
    };
    Some(
        RunArgs {
            input: opt_string(st.input),
            output: opt_string(st.output),
            format,
            json: st.json,
            method,
            disable_wildcard: st.disable_wildcard,
            verbose: st.verbose,
        },
    )
}

fn parse_api(toks: &Vec<Vec<char>>) -> (r: Option<(Option<Vec<char>>, bool)>)
    requires
        toks.len() >= 2,
    ensures
        match r {
            Some((b, v)) => scan_api(crate::order::texts(toks@), 2, None, false, false) == Some(
                (opt_chars(b), v),
            ),
            None => scan_api(crate::order::texts(toks@), 2, None, false, false) is None,
        },
{
    let ghost ts = crate::order::texts(toks@);
    let ghost goal = scan_api(ts, 2, None, false, false);
    let mut bind: Option<Vec<char>> = None;
    let mut verbose = false;
    let mut trailing = false;
    let mut i: usize = 2;
    while i < toks.len()
        invariant
            2 <= i <= toks.len(),
            ts == crate::order::texts(toks@),
            goal == scan_api(ts, 2, None, false, false),
            goal == scan_api(ts, i as nat, opt_chars(bind), verbose, trailing),
        decreases toks.len() - i,
    {
        let t = &toks[i];
        assert(ts[i as int] == t@);
        let tlen = t.len();
        let escape = tlen == 2 && t[0] == '-' && t[1] == '-';
        let flag_like = (tlen > 2 && t[0] == '-' && t[1] == '-') || (tlen >= 2 && t[0] == '-'
            && t[1] != '-');
        if !trailing && escape {
            trailing = true;
        } else if !trailing && flag_like {
            if (same_text(t, "--verbose") || same_text(t, "-v")) && !verbose {
                verbose = true;
            } else {
                return None;
            }
        } else if bind.is_none() {
            bind = Some(t.clone());
        } else {
            return None;
        }
        i += 1;
    }
    Some((bind, verbose))
}

impl Cli {
    /// Reads the command line `args` (program name first); `env_bind_addr`
    /// is the value of `BIND_ADDR`, if set.
    pub fn try_parse_with_env(args: &Vec<String>, env_bind_addr: Option<String>) -> (r: Result<
        Cli,
        CliError,
    >)
        ensures
            match r {
                Ok(cli) => parse_command_line(string_texts(args@), opt_text(env_bind_addr)) == Some(
                    cli.model(),
                ),
                Err(_) => parse_command_line(string_texts(args@), opt_text(env_bind_addr)) is None,
            },
    {
        let toks = token_chars(args);
        proof {
            if toks.len() >= 2 {
                assert(string_texts(args@)[1] == toks@[1]@);
            }
        }
        if toks.len() >= 2 && same_text(&toks[1], "run") {
            match parse_run(&toks) {
                Some(a) => Ok(Cli { command: Command::Run(a) }),
                None => Err(CliError),
            }
        } else if toks.len() >= 2 && same_text(&toks[1], "api") {
            match parse_api(&toks) {
                Some((b, verbose)) => {
                    let bind_addr = match b {
                        Some(v) => string_of(&v),
                        None => match env_bind_addr {
                            Some(e) => e,
                            None => String::from_str("0.0.0.0:8080"),
                        },
                    };
                    Ok(Cli { command: Command::Api(ApiArgs { bind_addr, verbose }) })
                },
                None => Err(CliError),
            }
        } else {
            proof {
                if toks.len() >= 2 {
                    assert(toks@[1]@ != "run"@);
                    assert(toks@[1]@ != "api"@);
                }
            }
            Err(CliError)
        }
    }

    /// Reads the command line `args` (program name first), without a
    /// `BIND_ADDR` value.
    pub fn try_parse_from(args: &Vec<String>) -> (r: Result<Cli, CliError>)
        ensures
            match r {
                Ok(cli) => parse_command_line(string_texts(args@), None) == Some(cli.model()),
                Err(_) => parse_command_line(string_texts(args@), None) is None,
            },
    {
        Cli::try_parse_with_env(args, None)
    }
}

impl RunArgs {
    /// Whether per-address progress stays off standard error: CSV or JSON
    /// output without `--verbose`.
    pub fn is_quiet(&self) -> (b: bool)
        ensures
            b == ((self.format == Format::Gophish || self.json) && !self.verbose),
    {
        (self.format == Format::Gophish || self.json) && !self.verbose
    }
}

} // verus!
