use pylinefix::cli::{exit_code, lookup_paths, needs_configured_length, options_from_args, stdin_mode, Args};

fn args(paths: &[&str], line_length: Option<usize>, stdin_filename: Option<&str>) -> Args {
    Args {
        paths: paths.iter().map(|p| p.to_string()).collect(),
        line_length,
        stdin_filename: stdin_filename.map(|f| f.to_string()),
        check: false,
        verbose: false,
        no_strings: false,
        no_docstrings: true,
        no_embedded: false,
        no_comments: true,
    }
}

#[test]
fn exit_code_prefers_errors_then_check_mode_changes() {
    assert_eq!(exit_code(1, 5, true), 2);
    assert_eq!(exit_code(0, 1, true), 1);
    assert_eq!(exit_code(0, 1, false), 0);
    assert_eq!(exit_code(0, 0, true), 0);
}

#[test]
fn line_length_comes_from_flag_then_config_then_default() {
    let a = args(&["x.py"], Some(100), None);
    assert!(!needs_configured_length(&a));
    assert_eq!(options_from_args(&a, Some(120)).line_length, 100);
    let a = args(&["x.py"], None, None);
    assert!(needs_configured_length(&a));
    assert_eq!(options_from_args(&a, Some(120)).line_length, 120);
    let o = options_from_args(&a, None);
    assert_eq!(o.line_length, 88);
    assert_eq!(o.tab_width, 4);
    assert!(o.strings_enabled);
    assert!(!o.docstrings_enabled);
    assert!(o.embedded_enabled);
    assert!(!o.comments_enabled);
}

#[test]
fn lookup_paths_follow_the_mode() {
    let a = args(&["-"], None, Some("pkg/mod.py"));
    assert!(stdin_mode(&a));
    assert_eq!(lookup_paths(&a, "/work".to_string()), vec!["pkg/mod.py".to_string()]);
    let a = args(&["-"], None, None);
    assert_eq!(lookup_paths(&a, "/work".to_string()), vec!["/work".to_string()]);
    let a = args(&[], None, Some("file.py"));
    assert!(stdin_mode(&a));
    assert_eq!(lookup_paths(&a, "/work".to_string()), vec!["file.py".to_string()]);
    let a = args(&[], None, None);
    assert!(stdin_mode(&a));
    let a = args(&["a.py", "src"], None, Some("ignored.py"));
    assert!(!stdin_mode(&a));
    assert_eq!(lookup_paths(&a, "/work".to_string()), vec!["a.py".to_string(), "src".to_string()]);
}
