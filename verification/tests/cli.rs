use cargo_spaced::cli::{is_rust_file, should_skip, Cli};

fn args(list: &[&str]) -> Vec<String> {
    list.iter().map(|arg| arg.to_string()).collect()
}

#[test]
fn recognizes_rust_files() {
    assert!(is_rust_file("src/lib.rs"));
    assert!(!is_rust_file("Cargo.toml"));
}

#[test]
fn skips_target_and_git() {
    assert!(should_skip("target"));
    assert!(should_skip(".git"));
    assert!(!should_skip("src"));
}

#[test]
fn parses_check_and_paths() {
    let args = args(&["cargo-spaced", "--check", "src", "file.rs"]);

    assert_eq!(
        Cli::parse_from(&args).unwrap(),
        Cli {
            paths: vec!["src".to_string(), "file.rs".to_string()],
            ignores: Vec::new(),
            check: true,
            quiet: false,
            verbose: false,
            files_with_diff: false,
        }
    );
}

#[test]
fn supports_option_terminator_and_rejects_unknown_options() {
    let parsed = args(&["cargo-spaced", "--", "--literal.rs"]);

    assert_eq!(
        Cli::parse_from(&parsed).unwrap().paths,
        vec!["--literal.rs".to_string()]
    );

    let unknown = args(&["cargo-spaced", "--unknown"]);

    assert!(Cli::parse_from(&unknown).is_err());
}

#[test]
fn parses_repeated_ignore_options() {
    let args = args(&[
        "cargo-spaced",
        "--ignore",
        "generated",
        "--ignore",
        "old.rs",
    ]);

    assert_eq!(
        Cli::parse_from(&args).unwrap().ignores,
        vec!["generated".to_string(), "old.rs".to_string()]
    );
}

#[test]
fn parses_output_options() {
    let args = args(&["cargo-spaced", "-q", "--verbose", "-l"]);

    let cli = Cli::parse_from(&args).unwrap();
    assert!(cli.quiet);
    assert!(cli.verbose);
    assert!(cli.files_with_diff);
}
