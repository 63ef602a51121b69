use yabir::cli::should_print_usage;

#[test]
fn cli_test_should_print_usage_returns_true_on_no_arguments() {
    assert!(should_print_usage(&vec![]));
}

#[test]
fn cli_test_should_print_usage_returns_true_on_help_short_form() {
    assert!(should_print_usage(&vec!["-h".to_string()]));
}

#[test]
fn cli_test_should_print_usage_returns_true_on_help_long_form() {
    assert!(should_print_usage(&vec!["--help".to_string()]));
}

#[test]
fn cli_test_should_print_usage_returns_false_when_prog_is_given() {
    assert!(!should_print_usage(&vec!["prog.bf".to_string()]));
}

#[test]
fn cli_test_should_print_usage_returns_true_on_two_arguments() {
    assert!(should_print_usage(&vec!["a.bf".to_string(), "b.bf".to_string()]));
}
