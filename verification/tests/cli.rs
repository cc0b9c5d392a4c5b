use pisweep::cli::{parse_cli, usage, CliAction};

fn args(rest: &[&str]) -> Vec<String> {
    std::iter::once("pisweep".into())
        .chain(rest.iter().map(|s| (*s).to_string()))
        .collect()
}

#[test]
fn default_run() {
    assert_eq!(parse_cli(&args(&[])), Ok(CliAction::Run));
    assert_eq!(parse_cli(&args(&["--version"])), Ok(CliAction::Version));
    assert_eq!(parse_cli(&args(&["nope"])).unwrap_err().argument, "nope");
}

#[test]
fn short_flags_and_help() {
    assert_eq!(parse_cli(&args(&["-V"])), Ok(CliAction::Version));
    assert_eq!(parse_cli(&args(&["--help"])), Ok(CliAction::Help));
    assert_eq!(parse_cli(&args(&["-h"])), Ok(CliAction::Help));
    assert_eq!(parse_cli(&args(&["-h", "extra"])), Ok(CliAction::Help));
    assert_eq!(parse_cli(&args(&["--Version"])).unwrap_err().argument, "--Version");
    assert!(usage().starts_with("Usage: pisweep"));
}
