use email_validator::cli::{Cli, Command, Format, Method};

fn args(v: &[&str]) -> Vec<String> {
    v.iter().map(|s| s.to_string()).collect()
}

fn parse(v: &[&str]) -> Cli {
    Cli::try_parse_from(&args(v)).unwrap()
}

#[test]
fn test_cli_structure_validity() {
    // Both commands exist and accept an empty option list.
    assert!(Cli::try_parse_from(&args(&["email_validator", "run"])).is_ok());
    assert!(Cli::try_parse_from(&args(&["email_validator", "api"])).is_ok());
    // A command is required.
    assert!(Cli::try_parse_from(&args(&["email_validator"])).is_err());
}

#[test]
fn test_cli_default_values() {
    let cli = parse(&["email_validator", "run", "-i", "list.txt"]);
    let Command::Run(args) = cli.command else { panic!("expected Run") };

    assert_eq!(args.input.unwrap(), "list.txt");
    assert_eq!(args.output, None);
    assert_eq!(args.format, Format::List);
    assert!(!args.json);
    assert_eq!(args.method, Method::Smtp);
    assert_eq!(args.disable_wildcard, false);
    assert_eq!(args.verbose, false);
}

#[test]
fn test_cli_custom_flags_and_options() {
    let cli = parse(&[
        "email_validator", "run",
        "-i", "in.txt",
        "-o", "out.csv",
        "-f", "gophish",
        "-m", "regex",
        "-d",
        "-v",
    ]);
    let Command::Run(args) = cli.command else { panic!("expected Run") };

    assert_eq!(args.input.unwrap(), "in.txt");
    assert_eq!(args.output.unwrap(), "out.csv");
    assert_eq!(args.format, Format::Gophish);
    assert!(!args.json);
    assert_eq!(args.method, Method::Regex);
    assert!(args.disable_wildcard);
    assert!(args.verbose);
}

#[test]
fn test_cli_json_flag() {
    let cli = parse(&["email_validator", "run", "-i", "in.txt", "-j", "-m", "regex"]);
    let Command::Run(args) = cli.command else { panic!("expected Run") };

    assert_eq!(args.input.unwrap(), "in.txt");
    assert!(args.json);
    assert_eq!(args.format, Format::List);
    assert_eq!(args.method, Method::Regex);
}

#[test]
fn test_cli_json_conflicts_with_format() {
    let result = Cli::try_parse_from(&args(&["email_validator", "run", "-i", "in.txt", "-j", "-f", "gophish"]));
    assert!(result.is_err());
}

#[test]
fn test_cli_api_args_default() {
    let cli = parse(&["email_validator", "api", "127.0.0.1:8080"]);
    let Command::Api(args) = cli.command else { panic!("expected Api") };
    assert_eq!(args.bind_addr, "127.0.0.1:8080");
    assert!(!args.verbose);
}

#[test]
fn test_cli_api_args_verbose() {
    let cli = parse(&["email_validator", "api", "0.0.0.0:3000", "-v"]);
    let Command::Api(args) = cli.command else { panic!("expected Api") };
    assert_eq!(args.bind_addr, "0.0.0.0:3000");
    assert!(args.verbose);
}

// ── Further forms of the grammar ───────────────────────────────────

fn run_of(v: &[&str]) -> email_validator::cli::RunArgs {
    match parse(v).command {
        Command::Run(a) => a,
        _ => panic!("expected Run"),
    }
}

#[test]
fn cli_long_options_with_equals_and_clusters() {
    let a = run_of(&["p", "run", "--input=a.txt", "--output", "b.txt", "--method=mx", "-dvj"]);
    assert_eq!(a.input.as_deref(), Some("a.txt"));
    assert_eq!(a.output.as_deref(), Some("b.txt"));
    assert_eq!(a.method, Method::Mx);
    assert!(a.disable_wildcard && a.verbose && a.json);

    let a = run_of(&["p", "run", "-ifile", "-o=out", "-dmsmtp"]);
    assert_eq!(a.input.as_deref(), Some("file"));
    assert_eq!(a.output.as_deref(), Some("out"));
    assert_eq!(a.method, Method::Smtp);
    assert!(a.disable_wildcard);

    // `-` is a value; `--` may end the line.
    let a = run_of(&["p", "run", "-i", "-", "--"]);
    assert_eq!(a.input.as_deref(), Some("-"));
    // An empty value after `=` is kept.
    let a = run_of(&["p", "run", "--input="]);
    assert_eq!(a.input.as_deref(), Some(""));
}

#[test]
fn cli_refusals() {
    let refused: &[&[&str]] = &[
        &["p", "run", "-i"],
        &["p", "run", "-i", "-v"],
        &["p", "run", "-i", "a", "-i", "b"],
        &["p", "run", "-v", "-v"],
        &["p", "run", "-vv"],
        &["p", "run", "--json=yes"],
        &["p", "run", "-f", "csv"],
        &["p", "run", "-m", "REGEX"],
        &["p", "run", "extra"],
        &["p", "run", "--", "extra"],
        &["p", "run", "-h"],
        &["p", "run", "--help"],
        &["p", "run", "--unknown"],
        &["p", "help"],
        &["p", "--help"],
        &["p", "other"],
        &["p", "api", "a", "b"],
        &["p", "api", "-v", "--verbose"],
        &["p", "api", "-x"],
        &["p", "api", "--bind=x"],
    ];
    for line in refused {
        assert!(Cli::try_parse_from(&args(line)).is_err(), "{line:?}");
    }
}

#[test]
fn cli_api_bind_address_sources() {
    let with_env = |v: &[&str], env: Option<&str>| match Cli::try_parse_with_env(&args(v), env.map(String::from)).unwrap().command {
        Command::Api(a) => a.bind_addr,
        _ => panic!("expected Api"),
    };
    assert_eq!(with_env(&["p", "api"], None), "0.0.0.0:8080");
    assert_eq!(with_env(&["p", "api"], Some("0.0.0.0:9000")), "0.0.0.0:9000");
    assert_eq!(with_env(&["p", "api", "1.2.3.4:5"], Some("0.0.0.0:9000")), "1.2.3.4:5");
    assert_eq!(with_env(&["p", "api", "--", "-weird"], None), "-weird");
}

#[test]
fn cli_quiet_mode() {
    assert!(run_of(&["p", "run", "-f", "gophish"]).is_quiet());
    assert!(run_of(&["p", "run", "-j"]).is_quiet());
    assert!(!run_of(&["p", "run", "-j", "-v"]).is_quiet());
    assert!(!run_of(&["p", "run"]).is_quiet());
}
