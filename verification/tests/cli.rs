use sentrix::cli::{parse_simulate_arg, MissingBriefingPath};

fn args(s: &str) -> Vec<String> {
    s.split_whitespace().map(|a| a.to_string()).collect()
}

#[test]
fn without_the_option_there_are_no_paths() {
    assert_eq!(parse_simulate_arg(&args("")), Ok(None));
    assert_eq!(parse_simulate_arg(&args("a.txt --speed 2")), Ok(None));
}

#[test]
fn paths_end_at_the_next_option() {
    assert_eq!(parse_simulate_arg(&args("x --simulate a b --speed c")), Ok(Some(args("a b"))));
    assert_eq!(parse_simulate_arg(&args("--simulate -a")), Ok(Some(args("-a"))));
}

#[test]
fn the_option_needs_a_path() {
    assert_eq!(parse_simulate_arg(&args("--simulate")), Err(MissingBriefingPath));
    assert_eq!(
        parse_simulate_arg(&args("--simulate --speed 2 --simulate a")),
        Err(MissingBriefingPath)
    );
}
