use grepclone::{
    build_regex, choose_process, colorize_matched, count_matches, parse_context, print_after_context,
    print_before_context, print_context, print_invert_matches, print_line_number, print_matches, search,
    try_count_matches, on_read_failure, CliError, Colors, ContextType, Flags, Matcher, ReadFailure,
};

const RED: &str = "\x1b[31m";
const GREEN: &str = "\x1b[32m";
const YELLOW: &str = "\x1b[33m";
const BLUE: &str = "\x1b[34m";
const RESET: &str = "\x1b[39m";

fn lines() -> Vec<String> {
    ["alpha", "beta", "gamma", "delta", "epsilon", "zeta", "eta"].iter().map(|s| s.to_string()).collect()
}

fn eta() -> Matcher {
    match build_regex("eta", false) {
        Ok(m) => m,
        Err(_) => panic!("the pattern compiles"),
    }
}

fn red(s: &str) -> String {
    format!("{}{}{}", RED, s, RESET)
}

fn number(n: usize) -> String {
    format!("{}{}{}: ", GREEN, n, RESET)
}

fn sep() -> String {
    format!("{}---{}", YELLOW, RESET)
}

fn flags(highlight: bool, line_number: bool) -> Flags {
    let mut f = Flags::new();
    f.highlight = highlight;
    f.line_number = line_number;
    f
}

#[test]
fn new_flags_are_all_off() {
    let f = Flags::new();
    assert!(!f.count && !f.line_number && !f.highlight && !f.ignore_case && !f.no_match);
    let d = Flags::default();
    assert!(!d.count && !d.line_number && !d.highlight && !d.ignore_case && !d.no_match);
}

#[test]
fn colorize_pattern_wraps_in_ansi_codes() {
    assert_eq!(Colors::colorize_pattern(Colors::Red, "x"), format!("{}x{}", RED, RESET));
    assert_eq!(Colors::colorize_pattern(Colors::Green, "x"), format!("{}x{}", GREEN, RESET));
    assert_eq!(Colors::colorize_pattern(Colors::Yellow, "x"), format!("{}x{}", YELLOW, RESET));
    assert_eq!(Colors::colorize_pattern(Colors::Blue, ""), format!("{}{}", BLUE, RESET));
}

#[test]
fn line_number_prefix_is_green_number_and_colon() {
    assert_eq!(print_line_number(12), format!("{}12{}: ", GREEN, RESET));
    assert_eq!(print_line_number(0), format!("{}0{}: ", GREEN, RESET));
}

#[test]
fn parse_context_accepts_decimal_sizes() {
    assert!(matches!(parse_context("5"), Ok(5)));
    assert!(matches!(parse_context("+7"), Ok(7)));
    assert!(matches!(parse_context("007"), Ok(7)));
    assert!(matches!(parse_context(""), Err(CliError::Parse(_))));
    assert!(matches!(parse_context("+"), Err(CliError::Parse(_))));
    assert!(matches!(parse_context("-1"), Err(CliError::Parse(_))));
    assert!(matches!(parse_context(" 3"), Err(CliError::Parse(_))));
    assert!(matches!(parse_context("3a"), Err(CliError::Parse(_))));
    assert!(matches!(parse_context("999999999999999999999999999"), Err(CliError::Parse(_))));
}

#[test]
fn build_regex_rejects_invalid_patterns() {
    assert!(matches!(build_regex("(", false), Err(CliError::Regex(_))));
    assert!(matches!(build_regex("[a-", true), Err(CliError::Regex(_))));
    assert!(build_regex("a+b", false).is_ok());
}

#[test]
fn ignore_case_changes_what_matches() {
    let l = lines();
    let upper = build_regex("ETA", false).ok().unwrap();
    assert_eq!(count_matches(&l, &upper), 0);
    let any_case = build_regex("ETA", true).ok().unwrap();
    assert_eq!(count_matches(&l, &any_case), 3);
}

#[test]
fn count_counts_matching_lines() {
    assert_eq!(count_matches(&lines(), &eta()), 3);
    assert_eq!(count_matches(&Vec::new(), &eta()), 0);
    let twice = vec!["eta eta".to_string()];
    assert_eq!(count_matches(&twice, &eta()), 1);
}

#[test]
fn colorize_matched_leaves_other_lines_alone() {
    let re = eta();
    assert_eq!(colorize_matched(3, "gamma", &re), (3, "gamma".to_string()));
    assert_eq!(colorize_matched(1, "beta", &re), (1, format!("b{}", red("eta"))));
}

#[test]
fn colorize_matched_colours_each_match_once() {
    let re = eta();
    assert_eq!(colorize_matched(0, "eta beta", &re).1, format!("{} b{}", red("eta"), red("eta")));
    let either = build_regex("a|b", false).ok().unwrap();
    assert_eq!(colorize_matched(0, "ab", &either), (0, format!("{}{}", red("a"), red("b"))));
    let dollar = build_regex(r"\$\d", false).ok().unwrap();
    assert_eq!(colorize_matched(0, "x$1", &dollar).1, format!("x{}", red("$1")));
}

#[test]
fn plain_search_prints_matching_lines() {
    let out = print_matches(&lines(), &eta(), &flags(false, false));
    assert_eq!(out, vec!["beta", "zeta", "eta"]);
}

#[test]
fn highlighted_search_colours_matches() {
    let out = print_matches(&lines(), &eta(), &flags(true, false));
    assert_eq!(out, vec![format!("b{}", red("eta")), format!("z{}", red("eta")), red("eta")]);
}

#[test]
fn numbered_search_prefixes_without_colour() {
    let out = print_matches(&lines(), &eta(), &flags(false, true));
    assert_eq!(out, vec![format!("{}beta", number(2)), format!("{}zeta", number(6)), format!("{}eta", number(7))]);
    let l = vec!["ab".to_string()];
    let b = build_regex("b", false).ok().unwrap();
    assert_eq!(print_matches(&l, &b, &flags(false, true)), vec![format!("{}ab", number(1))]);
}

#[test]
fn numbered_highlighted_search_prefixes_once() {
    let l = vec!["x".to_string(), "eta beta".to_string()];
    let out = print_matches(&l, &eta(), &flags(true, true));
    assert_eq!(out, vec![format!("{}{} b{}", number(2), red("eta"), red("eta"))]);
    let a = build_regex("a", false).ok().unwrap();
    let out = print_matches(&vec!["a a".to_string()], &a, &flags(true, true));
    assert_eq!(out, vec![format!("{}{} {}", number(1), red("a"), red("a"))]);
    let out = print_matches(&lines(), &eta(), &flags(true, true));
    assert_eq!(out[0], format!("{}b{}", number(2), red("eta")));
}

#[test]
fn inverted_search_prints_other_lines() {
    let out = print_invert_matches(&lines(), &eta(), &flags(false, false));
    assert_eq!(out, vec!["alpha", "gamma", "delta", "epsilon"]);
    let out = print_invert_matches(&lines(), &eta(), &flags(false, true));
    assert_eq!(
        out,
        vec![
            format!("{}alpha", number(1)),
            format!("{}gamma", number(3)),
            format!("{}delta", number(4)),
            format!("{}epsilon", number(5)),
        ]
    );
}

#[test]
fn count_and_inverted_search_split_the_input() {
    let l = lines();
    let re = eta();
    let inverted = print_invert_matches(&l, &re, &flags(false, true));
    assert_eq!(count_matches(&l, &re) as usize + inverted.len(), l.len());
    let matched = print_matches(&l, &re, &flags(true, true));
    assert_eq!(matched.len(), count_matches(&l, &re) as usize);
}

#[test]
fn before_context_groups_and_separates() {
    let out = print_before_context(&lines(), &eta(), &flags(true, false), 1, "---");
    assert_eq!(
        out,
        vec![
            "alpha".to_string(),
            format!("b{}", red("eta")),
            sep(),
            "epsilon".to_string(),
            format!("z{}", red("eta")),
            red("eta"),
        ]
    );
}

#[test]
fn before_context_with_numbers_and_own_separator() {
    let out = print_before_context(&lines(), &eta(), &flags(true, true), 0, "==");
    assert_eq!(
        out,
        vec![
            format!("{}b{}", number(2), red("eta")),
            format!("{}=={}", YELLOW, RESET),
            format!("{}z{}", number(6), red("eta")),
            format!("{}=={}", YELLOW, RESET),
            format!("{}{}", number(7), red("eta")),
        ]
    );
}

#[test]
fn before_context_merges_close_matches() {
    let out = print_before_context(&lines(), &eta(), &flags(false, false), 5, "---");
    assert_eq!(out, lines());
}

#[test]
fn context_lines_are_plain_without_highlight() {
    let out = print_before_context(&lines(), &eta(), &flags(false, true), 1, "---");
    assert_eq!(
        out,
        vec![
            format!("{}alpha", number(1)),
            format!("{}beta", number(2)),
            sep(),
            format!("{}epsilon", number(5)),
            format!("{}zeta", number(6)),
            format!("{}eta", number(7)),
        ]
    );
    let out = print_after_context(&lines(), &eta(), &flags(false, false), 1, "---");
    assert_eq!(out, vec!["beta".to_string(), "gamma".to_string(), sep(), "zeta".to_string(), "eta".to_string()]);
}

#[test]
fn after_context_groups_and_separates() {
    let out = print_after_context(&lines(), &eta(), &flags(true, false), 1, "---");
    assert_eq!(
        out,
        vec![format!("b{}", red("eta")), "gamma".to_string(), sep(), format!("z{}", red("eta")), red("eta")]
    );
}

#[test]
fn after_context_skips_far_lines() {
    let l: Vec<String> = ["eta", "a", "b", "eta", "c"].iter().map(|s| s.to_string()).collect();
    let out = print_after_context(&l, &eta(), &flags(true, true), 1, "---");
    assert_eq!(
        out,
        vec![
            format!("{}{}", number(1), red("eta")),
            format!("{}a", number(2)),
            sep(),
            format!("{}{}", number(4), red("eta")),
            format!("{}c", number(5)),
        ]
    );
    let merged = print_after_context(&l, &eta(), &flags(false, false), 2, "---");
    assert_eq!(merged, l);
}

#[test]
fn context_prints_a_window_per_match() {
    let out = print_context(&lines(), &eta(), &flags(false, false), 1, "---");
    assert_eq!(
        out,
        vec![
            "alpha".to_string(),
            "beta".to_string(),
            "gamma".to_string(),
            sep(),
            "epsilon".to_string(),
            "zeta".to_string(),
            "eta".to_string(),
            sep(),
            "zeta".to_string(),
            "eta".to_string(),
        ]
    );
}

#[test]
fn context_highlights_when_asked() {
    let out = print_context(&lines(), &eta(), &flags(true, true), 0, "---");
    assert_eq!(
        out,
        vec![
            format!("{}b{}", number(2), red("eta")),
            sep(),
            format!("{}z{}", number(6), red("eta")),
            sep(),
            format!("{}{}", number(7), red("eta")),
        ]
    );
}

#[test]
fn huge_context_sizes_do_not_overflow() {
    let l = lines();
    let re = eta();
    let all = print_context(&l, &re, &flags(false, false), usize::MAX, "---");
    assert_eq!(all.len(), 3 * 7 + 2);
    let after = print_after_context(&l, &re, &flags(false, false), usize::MAX, "---");
    assert_eq!(after.len(), 6);
    let before = print_before_context(&l, &re, &flags(false, false), usize::MAX, "---");
    assert_eq!(before.len(), 7);
}

#[test]
fn empty_input_prints_nothing() {
    let l: Vec<String> = Vec::new();
    let re = eta();
    assert!(print_before_context(&l, &re, &flags(false, false), 2, "---").is_empty());
    assert!(print_after_context(&l, &re, &flags(false, false), 2, "---").is_empty());
    assert!(print_context(&l, &re, &flags(false, false), 2, "---").is_empty());
    assert!(print_matches(&l, &re, &flags(true, true)).is_empty());
}

#[test]
fn counting_with_few_matches_fits() {
    assert_eq!(try_count_matches(&lines(), &eta()), Some(3));
    let mut f = Flags::new();
    f.count = true;
    let out = search(&lines(), &eta(), &f, ContextType::NoContext, "---");
    assert_eq!(out.unwrap().ok().unwrap(), vec!["3"]);
}

#[test]
fn choose_process_counts() {
    let mut f = Flags::new();
    f.count = true;
    f.no_match = true;
    let out = choose_process(&lines(), &eta(), &f, ContextType::Before("x"), "---");
    assert_eq!(out.ok().unwrap(), vec!["3"]);
}

#[test]
fn choose_process_inverts() {
    let mut f = Flags::new();
    f.no_match = true;
    let out = choose_process(&lines(), &eta(), &f, ContextType::After("1"), "---");
    assert_eq!(out.ok().unwrap(), vec!["alpha", "gamma", "delta", "epsilon"]);
}

#[test]
fn choose_process_dispatches_on_context() {
    let l = lines();
    let re = eta();
    let f = Flags::new();
    let before = choose_process(&l, &re, &f, ContextType::Before("1"), "---").ok().unwrap();
    assert_eq!(before, print_before_context(&l, &re, &f, 1, "---"));
    let after = choose_process(&l, &re, &f, ContextType::After("1"), "---").ok().unwrap();
    assert_eq!(after, print_after_context(&l, &re, &f, 1, "---"));
    let both = choose_process(&l, &re, &f, ContextType::Context("1"), "---").ok().unwrap();
    assert_eq!(both, print_context(&l, &re, &f, 1, "---"));
    let none = choose_process(&l, &re, &f, ContextType::NoContext, "---").ok().unwrap();
    assert_eq!(none, vec!["beta", "zeta", "eta"]);
}

#[test]
fn choose_process_reports_bad_context_sizes() {
    let l = lines();
    let re = eta();
    let f = Flags::new();
    assert!(matches!(choose_process(&l, &re, &f, ContextType::Before("x"), "---"), Err(CliError::Parse(_))));
    assert!(matches!(choose_process(&l, &re, &f, ContextType::After("-2"), "---"), Err(CliError::Parse(_))));
    assert!(matches!(choose_process(&l, &re, &f, ContextType::Context(""), "---"), Err(CliError::Parse(_))));
}

#[test]
fn parse_context_reads_back_decimal_notation() {
    for n in [0usize, 1, 9, 10, 42, 1000, usize::MAX] {
        assert!(matches!(parse_context(&n.to_string()), Ok(m) if m == n));
    }
}

#[test]
fn after_context_keeps_matches_two_contexts_apart_together() {
    let l: Vec<String> = ["eta", "a", "eta", "b", "c", "d", "eta"].iter().map(|s| s.to_string()).collect();
    let out = print_after_context(&l, &eta(), &flags(false, false), 1, "---");
    assert_eq!(
        out,
        vec!["eta".to_string(), "a".to_string(), "eta".to_string(), "b".to_string(), sep(), "eta".to_string()]
    );
}

#[test]
fn before_context_keeps_matches_one_context_apart_together() {
    let l: Vec<String> = ["eta", "a", "eta", "b", "c", "eta"].iter().map(|s| s.to_string()).collect();
    let out = print_before_context(&l, &eta(), &flags(false, false), 2, "---");
    assert_eq!(
        out,
        vec!["eta".to_string(), "a".to_string(), "eta".to_string(), sep(), "b".to_string(), "c".to_string(), "eta".to_string()]
    );
    let out = print_before_context(&l, &eta(), &flags(false, false), 3, "---");
    assert_eq!(out, l);
    let out = print_before_context(&l, &eta(), &flags(false, false), 1, "---");
    assert_eq!(
        out,
        vec!["eta".to_string(), sep(), "a".to_string(), "eta".to_string(), sep(), "c".to_string(), "eta".to_string()]
    );
}

#[test]
fn read_failures_are_handled_per_search() {
    let mut f = Flags::new();
    assert_eq!(on_read_failure(&f, ContextType::NoContext), ReadFailure::UseLinesRead);
    assert_eq!(on_read_failure(&f, ContextType::Before("1")), ReadFailure::Report);
    assert_eq!(on_read_failure(&f, ContextType::After("1")), ReadFailure::Report);
    assert_eq!(on_read_failure(&f, ContextType::Context("1")), ReadFailure::Abort);
    f.no_match = true;
    assert_eq!(on_read_failure(&f, ContextType::Context("1")), ReadFailure::UseLinesRead);
    f.count = true;
    assert_eq!(on_read_failure(&f, ContextType::NoContext), ReadFailure::Abort);
}
