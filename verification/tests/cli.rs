//! The command line and the log of commands.

use harvest::cli::{keep_last, lines_of, parse_args, parse_cwd_log, parse_number};

fn words(list: &[&str]) -> Vec<String> {
    list.iter().map(|w| w.to_string()).collect()
}

#[test]
fn no_words_leave_the_defaults() {
    let args = parse_args(&words(&[]), "/here".to_string(), false);
    assert_eq!(args.cwd, "/here");
    assert_eq!(args.prompt, None);
    assert_eq!(args.cwd_log, None);
    assert_eq!(args.lines, None);
    assert!(!args.debug);
}

#[test]
fn all_options() {
    let list = words(&[
        "--cwd", "/w", "--prompt", "%n", "--cwd-log", "/l", "--lines", "12", "--debug",
    ]);
    let args = parse_args(&list, "/here".to_string(), false);
    assert_eq!(args.cwd, "/w");
    assert_eq!(args.prompt, Some("%n".to_string()));
    assert_eq!(args.cwd_log, Some("/l".to_string()));
    assert_eq!(args.lines, Some(12));
    assert!(args.debug);
}

#[test]
fn later_option_counts_and_others_are_passed_over() {
    let list = words(&["x", "--cwd", "/a", "--lines", "3", "--no", "--cwd", "/b", "--lines", "z"]);
    let args = parse_args(&list, "/here".to_string(), false);
    assert_eq!(args.cwd, "/b");
    assert_eq!(args.lines, None);
    assert!(!args.debug);
}

#[test]
fn option_without_value_is_passed_over() {
    let args = parse_args(&words(&["--debug", "--cwd"]), "/here".to_string(), false);
    assert_eq!(args.cwd, "/here");
    assert!(args.debug);
}

#[test]
fn value_may_look_like_an_option() {
    let args = parse_args(&words(&["--prompt", "--debug"]), "/here".to_string(), false);
    assert_eq!(args.prompt, Some("--debug".to_string()));
    assert!(!args.debug);
}

#[test]
fn environment_asks_for_the_debug_log() {
    assert!(parse_args(&words(&[]), "/here".to_string(), true).debug);
}

#[test]
fn numbers_agree_with_the_standard_library() {
    let max = format!("{}", usize::MAX);
    let over = format!("{}0", usize::MAX);
    let next = format!("{}", usize::MAX as u128 + 1);
    for s in ["0", "7", "0042", "+5", "", "+", "-1", "-0", "++1", "1+", " 1", "1 ", "x", "1x",
        "\u{0663}", max.as_str(), over.as_str(), next.as_str()]
    {
        assert_eq!(parse_number(s), s.parse::<usize>().ok(), "{s:?}");
    }
}

#[test]
fn last_lines_are_kept() {
    let all = words(&["a", "b", "c"]);
    assert_eq!(keep_last(all.clone(), None), all);
    assert_eq!(keep_last(all.clone(), Some(2)), vec!["b", "c"]);
    assert_eq!(keep_last(all.clone(), Some(9)), all);
    assert_eq!(keep_last(all, Some(0)), Vec::<String>::new());
}

#[test]
fn lines_agree_with_the_standard_library() {
    for s in ["", "\n", "a", "a\n", "a\r\nb", "a\r", "\r\n", "a\n\nb\n", "a\r\r\n", "a\rb\n"] {
        assert_eq!(lines_of(s), s.lines().collect::<Vec<_>>(), "{s:?}");
    }
}

#[test]
fn log_of_commands() {
    let log = parse_cwd_log("/a\tls\nno tab\n/b\tcd x\ty\r\n\tempty\n/c\t");
    let expected: Vec<(String, String)> = [
        ("/a", "ls"), ("/b", "cd x\ty"), ("", "empty"), ("/c", ""),
    ].iter().map(|(a, b)| (a.to_string(), b.to_string())).collect();
    assert_eq!(log, expected);
    assert!(parse_cwd_log("").is_empty());
}

#[test]
fn log_reads_back() {
    let entries = vec![
        ("/a b".to_string(), "ls -l\t.".to_string()),
        ("/c".to_string(), "".to_string()),
    ];
    let written: String = entries.iter().map(|(d, c)| format!("{d}\t{c}\n")).collect();
    assert_eq!(parse_cwd_log(&written), entries);
}
