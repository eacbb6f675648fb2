use patchwork::cli::ensure_pattern_or_query;

#[test]
fn exactly_one_of_pattern_and_query() {
    assert!(ensure_pattern_or_query(&Some("x".to_string()), &None).is_ok());
    assert!(ensure_pattern_or_query(&None, &Some("(x)".to_string())).is_ok());
    assert_eq!(
        ensure_pattern_or_query(&Some("x".to_string()), &Some("(x)".to_string())).unwrap_err(),
        "Cannot use both --pattern (-p) and --query (-q)"
    );
    assert_eq!(
        ensure_pattern_or_query(&None, &None).unwrap_err(),
        "Must provide either --pattern (-p) or --query (-q)"
    );
}

// The program's help text, which must name the program, is rendered from the
// name and description that the command line declares.
#[test]
fn test_help_succeeds() {
    let help = clap::Command::new(patchwork::cli::PROGRAM_NAME)
        .about(patchwork::cli::PROGRAM_ABOUT)
        .render_help()
        .to_string();
    assert!(help.contains("patchwork"));
}
