use zf::config::{Config, ConfigError};

fn args(v: &[&str]) -> Vec<String> {
    v.iter().map(|s| s.to_string()).collect()
}

fn check_eq_config(a: &[&str], config: Config) {
    let out = Config::parse(&args(a)).expect("Expect an Ok(...) not Err(...)");
    assert_eq!(out, config);
}

#[test]
fn parse_sample() {
    for (a, out) in vec![
        (vec!["zf"], Config::default()),
        (vec!["zf", "--help"], Config { help: true, ..Config::default() }),
        (vec!["zf", "--version"], Config { version: true, ..Config::default() }),
        (vec!["zf", "-v", "-h"], Config { version: true, help: false, ..Config::default() }),
        (vec!["zf", "-f", "query"], Config { skip_ui: true, query: "query".into(), help: false, ..Config::default() }),
        (vec!["zf", "-l", "12"], Config { lines: 12, help: false, ..Config::default() }),
        (vec!["zf", "-k", "-p"], Config { keep_order: true, plain: true, ..Config::default() }),
        (vec!["zf", "--keep-order", "--plain"], Config { keep_order: true, plain: true, ..Config::default() }),
    ]
    .into_iter()
    {
        check_eq_config(&a, out);
    }

    for a in vec![
        vec!["zf", "--filter"],
        vec!["zf", "asdf"],
        vec!["zf", "bad arg here", "--help"],
        vec!["zf", "--lines", "-10"],
    ]
    .into_iter()
    {
        assert!(Config::parse(&args(&a)).is_err());
    }
}

#[test]
fn default_config() {
    let c = Config::default();
    assert_eq!(c.lines, 10);
    assert!(!c.help && !c.version && !c.skip_ui && !c.keep_order && !c.plain);
    assert_eq!(c.query, "");
}

#[test]
fn parse_errors_name_the_argument() {
    assert_eq!(Config::parse(&args(&["zf", "--filter"])), Err(ConfigError::MissingArgument("--filter".to_string())));
    assert_eq!(Config::parse(&args(&["zf", "-l"])), Err(ConfigError::MissingArgument("-l".to_string())));
    assert_eq!(Config::parse(&args(&["zf", "asdf"])), Err(ConfigError::Unrecognized("asdf".to_string())));
    assert_eq!(Config::parse(&args(&["zf", "--lines", "-10"])), Err(ConfigError::InvalidNumber("-10".to_string())));
    assert_eq!(Config::parse(&args(&["zf", "--lines", "1x"])), Err(ConfigError::InvalidNumber("1x".to_string())));
    assert_eq!(Config::parse(&args(&["zf", "--lines", "+"])), Err(ConfigError::InvalidNumber("+".to_string())));
    assert_eq!(Config::parse(&args(&["zf", "-l", "0"])), Err(ConfigError::ZeroLines));
    assert_eq!(
        Config::parse(&args(&["zf", "-l", "99999999999999999999999"])),
        Err(ConfigError::InvalidNumber("99999999999999999999999".to_string()))
    );
}

#[test]
fn parse_counts_and_stops() {
    check_eq_config(&["zf", "-l", "+7"], Config { lines: 7, ..Config::default() });
    check_eq_config(&["zf", "--lines", "0012"], Config { lines: 12, ..Config::default() });
    check_eq_config(&["zf", "-h", "asdf"], Config { help: true, ..Config::default() });
    check_eq_config(
        &["zf", "-f", "-k", "-p"],
        Config { skip_ui: true, query: "-k".into(), plain: true, ..Config::default() },
    );
    check_eq_config(&[], Config::default());
}
