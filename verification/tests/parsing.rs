use valargs::Args;

fn tokens(raw: &[&str]) -> Vec<String> {
    raw.iter().map(|s| s.to_string()).collect()
}

#[test]
fn parse_args() {
    let args = Args::parse_raw(
        &["exec", "arg1", "arg2", "--option0", "option0_value", "arg3", "-o"]
            .map(|s| s.to_string()),
    );
    assert_eq!(Some("exec"), args.nth(0));
    assert_eq!(Some("arg1"), args.nth(1));
    assert_eq!(Some("arg2"), args.nth(2));
    assert_eq!(Some("arg3"), args.nth(3));
    assert_eq!(None, args.nth(4));

    assert_eq!(Some("option0_value"), args.option_value("option0"));
    assert!(args.has_option("o"));
}

#[test]
fn mixed_invocation_full_breakdown() {
    let args = Args::parse_raw(&tokens(&[
        "exec",
        "arg1",
        "arg2",
        "--option0",
        "option0_value",
        "arg3",
        "-o",
    ]));
    assert_eq!(Some("exec"), args.nth(0));
    assert_eq!(Some("arg1"), args.nth(1));
    assert_eq!(Some("arg2"), args.nth(2));
    assert_eq!(Some("arg3"), args.nth(3));
    assert_eq!(None, args.nth(4));
    assert!(args.has_option("option0"));
    assert_eq!(Some("option0_value"), args.option_value("option0"));
    assert!(args.has_option("o"));
    assert_eq!(None, args.option_value("o"));
}

#[test]
fn marker_never_consumes_following_marker() {
    let args = Args::parse_raw(&tokens(&["--a", "--b"]));
    assert!(args.has_option("a"));
    assert_eq!(None, args.option_value("a"));
    assert!(args.has_option("b"));
    assert_eq!(None, args.nth(0));
}

#[test]
fn reparsing_is_deterministic() {
    let raw = tokens(&["exec", "-n", "cat", "--orange", "stray"]);
    let first = Args::parse_raw(&raw);
    let second = Args::parse_raw(&raw);
    assert_eq!(first.nth(0), second.nth(0));
    assert_eq!(first.nth(1), second.nth(1));
    assert_eq!(first.nth(2), second.nth(2));
    assert_eq!(first.has_option("n"), second.has_option("n"));
    assert_eq!(first.option_value("n"), second.option_value("n"));
    assert_eq!(first.has_option("orange"), second.has_option("orange"));
    assert_eq!(first.option_value("orange"), second.option_value("orange"));
}

#[test]
fn empty_input_yields_empty_result() {
    let args = Args::parse_raw(&tokens(&[]));
    assert_eq!(None, args.nth(0));
    assert!(!args.has_option(""));
    assert_eq!(None, args.option_value(""));
}

#[test]
fn lone_single_dash_is_empty_name() {
    let args = Args::parse_raw(&tokens(&["-"]));
    assert!(args.has_option(""));
    assert_eq!(None, args.option_value(""));
    assert_eq!(None, args.nth(0));
}

#[test]
fn lone_double_dash_is_empty_name() {
    let args = Args::parse_raw(&tokens(&["--"]));
    assert!(args.has_option(""));
    assert_eq!(None, args.option_value(""));
    assert_eq!(None, args.nth(0));
}

#[test]
fn empty_name_still_takes_a_value() {
    let args = Args::parse_raw(&tokens(&["--", "val"]));
    assert!(args.has_option(""));
    assert_eq!(Some("val"), args.option_value(""));
    assert_eq!(None, args.nth(0));
}

#[test]
fn repeated_option_last_occurrence_wins() {
    let args = Args::parse_raw(&tokens(&["--x", "1", "--x", "2"]));
    assert_eq!(Some("2"), args.option_value("x"));
    assert_eq!(None, args.nth(0));
}

#[test]
fn single_dash_option_takes_value() {
    let args = Args::parse_raw(&tokens(&["-o", "val"]));
    assert!(args.has_option("o"));
    assert_eq!(Some("val"), args.option_value("o"));
    assert_eq!(None, args.nth(0));
}

#[test]
fn consumed_value_is_not_positional() {
    let args = Args::parse_raw(&tokens(&["--k", "v", "p"]));
    assert_eq!(Some("v"), args.option_value("k"));
    assert_eq!(Some("p"), args.nth(0));
    assert_eq!(None, args.nth(1));
}

#[test]
fn option_names_keep_inner_dashes() {
    let args = Args::parse_raw(&tokens(&["--fav-food", "fish", "---x"]));
    assert_eq!(Some("fish"), args.option_value("fav-food"));
    assert!(args.has_option("-x"));
}

#[test]
fn option_lookup_is_case_sensitive() {
    let args = Args::parse_raw(&tokens(&["-o"]));
    assert!(args.has_option("o"));
    assert!(!args.has_option("O"));
    assert_eq!(None, args.option_value("O"));
}

#[test]
fn dashed_number_is_treated_as_option() {
    let args = Args::parse_raw(&tokens(&["-5"]));
    assert!(args.has_option("5"));
    assert_eq!(None, args.nth(0));
}

#[test]
fn unknown_option_is_absent() {
    let args = Args::parse_raw(&tokens(&["exec", "arg"]));
    assert!(!args.has_option("missing"));
    assert_eq!(None, args.option_value("missing"));
}
