use yabir::usage::should_print_usage;

#[test]
fn usage_test_should_print_usage_returns_true_on_no_arguments() {
    assert!(should_print_usage(&vec![]));
}

#[test]
fn usage_test_should_print_usage_returns_true_on_help_short_form() {
    assert!(should_print_usage(&vec!["-h".to_string()]));
}

#[test]
fn usage_test_should_print_usage_returns_true_on_help_long_form() {
    assert!(should_print_usage(&vec!["--help".to_string()]));
}

#[test]
fn usage_test_should_print_usage_returns_false_when_prog_is_given() {
    assert!(!should_print_usage(&vec!["prog.bf".to_string()]));
}
