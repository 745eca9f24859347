//! Prompt formats and the lines that they draw.

use harvest::prompt::{
    collect_paren_content, extract_command_from_prompt_line, find_cd_in_line, is_prompt_line,
    parse_prompt_pattern, prompt_line_dirname, prompt_literals, split_top_colons,
};

#[test]
fn prompt_pattern_strips_command_substitution() {
    let prompt = r"%(?:%{%}%1{➜%} :%{%}%1{➜%} ) %{%}%c%{%} $(git_prompt_info)";
    let pattern = parse_prompt_pattern(prompt);
    assert!(!pattern.contains("$("), "pattern: {pattern:?}");
    assert!(pattern.contains('➜'), "pattern: {pattern:?}");
}

#[test]
fn prompt_pattern_strips_color_groups() {
    assert_eq!(parse_prompt_pattern("%{\\e[32m%}hello%{\\e[0m%}"), "hello");
}

#[test]
fn prompt_pattern_keeps_n_braces() {
    assert_eq!(parse_prompt_pattern("%1{➜%}"), "➜");
}

#[test]
fn prompt_pattern_strips_conditionals() {
    assert_eq!(parse_prompt_pattern("%(?:yes:no) rest"), "yes rest");
}

#[test]
fn prompt_pattern_strips_percent_codes() {
    assert_eq!(parse_prompt_pattern("user %n at %m in %~"), "user  at  in");
}

#[test]
fn prompt_line_detection() {
    let literals = vec!["➜"];
    assert!(is_prompt_line("➜  harvest git:(main)", &literals));
    assert!(!is_prompt_line("some random output", &literals));
}

#[test]
fn prompt_line_multiple_literals() {
    let literals = vec!["➜", "git:("];
    assert!(is_prompt_line("➜  harvest git:(main) ✗", &literals));
    assert!(!is_prompt_line("➜  harvest", &literals));
}

#[test]
fn prompt_line_empty_literals() {
    assert!(!is_prompt_line("anything", &[]));
}

#[test]
fn command_extracted_from_prompt_line() {
    let literals = vec!["➜", "git:(main)"];
    assert_eq!(
        extract_command_from_prompt_line("➜  harvest git:(main) cd src", &literals),
        "cd src"
    );
}

#[test]
fn command_with_dirty_marker_in_literals() {
    let literals = vec!["➜", "git:(main)", "✗"];
    assert_eq!(
        extract_command_from_prompt_line("➜  harvest git:(main) ✗ cd src", &literals),
        "cd src"
    );
}

#[test]
fn find_cd_extracts_from_prompt_line() {
    assert_eq!(find_cd_in_line("➜  harvest git:(main) cd src"), Some("src"));
}

#[test]
fn find_cd_extracts_absolute() {
    assert_eq!(find_cd_in_line("➜  harvest git:(main) cd /tmp"), Some("/tmp"));
}

#[test]
fn find_cd_returns_none_for_non_cd() {
    assert_eq!(find_cd_in_line("➜  harvest git:(main) find . | grep main"), None);
}

#[test]
fn paren_content_is_balanced() {
    let chars: Vec<char> = "a(b)c)d".chars().collect();
    let mut pos = 0;
    assert_eq!(collect_paren_content(&chars, &mut pos), "a(b)c");
    assert_eq!(pos, 6);
    assert_eq!(collect_paren_content(&chars, &mut pos), "d");
    assert_eq!(pos, 7);
}

#[test]
fn colons_inside_parentheses_do_not_split() {
    assert_eq!(split_top_colons("a:(b:c):d"), vec!["a", "(b:c)", "d"]);
    assert_eq!(split_top_colons("):x"), vec![")", "x"]);
    assert_eq!(split_top_colons(""), vec![""]);
    assert_eq!(split_top_colons("(a:b"), vec!["(a:b"]);
}

#[test]
fn plain_format_is_its_own_pattern() {
    assert_eq!(parse_prompt_pattern("  user$ host >  "), "user$ host >");
    assert_eq!(parse_prompt_pattern(""), "");
}

#[test]
fn nested_conditional_shows_its_true_branch() {
    assert_eq!(parse_prompt_pattern("%(?:%(1j:jobs:) ok:no)>"), "jobs ok>");
    assert_eq!(parse_prompt_pattern("%(only)x"), "x");
    assert_eq!(parse_prompt_pattern("%(?: a :b)x"), "ax");
}

#[test]
fn substitution_with_parentheses_vanishes() {
    assert_eq!(parse_prompt_pattern("a$(f (g) h)b"), "ab");
    assert_eq!(parse_prompt_pattern("a$(open"), "a");
    assert_eq!(parse_prompt_pattern("cost$ (x)"), "cost$ (x)");
}

#[test]
fn group_ends_at_its_own_mark() {
    assert_eq!(parse_prompt_pattern("%{%F{red}%}x"), "x");
    assert_eq!(parse_prompt_pattern("a%{%B%K{blue}}%%%}b%{%}c"), "abc");
    assert_eq!(parse_prompt_pattern("%{%%}x"), "x");
    assert_eq!(parse_prompt_pattern("%{50%%}x%{%}y"), "xy");
    assert_eq!(prompt_literals("%{%F{red}%}%1{\u{279c}%}%{%f%} %~"), vec!["\u{279c}"]);
}

#[test]
fn no_percent_is_left() {
    for format in ["100%%", "%1{50%%}x", "%(?:%%:b)%", "%{%F{red}%}%#", "a%1{b%%%}c"] {
        assert!(!parse_prompt_pattern(format).contains('%'), "{format}");
    }
}

#[test]
fn group_without_end_goes_to_its_first_code() {
    assert_eq!(parse_prompt_pattern("a%{b%cd"), "ad");
    assert_eq!(parse_prompt_pattern("%{%F{red}x"), "{red}x");
}

#[test]
fn group_without_percent_takes_the_rest() {
    assert_eq!(parse_prompt_pattern("a%{b"), "a");
    assert_eq!(parse_prompt_pattern("a%1{b"), "ab");
    assert_eq!(parse_prompt_pattern("a%{b%"), "a");
    assert_eq!(parse_prompt_pattern("a%"), "a");
    assert_eq!(parse_prompt_pattern("a%1b"), "ab");
}

#[test]
fn literals_have_two_bytes() {
    assert_eq!(prompt_literals("%1{\u{279c}%} > ab \u{e9}"), vec!["\u{279c}", "ab", "\u{e9}"]);
    assert!(prompt_literals("%n > $").is_empty());
}

#[test]
fn drawn_line_is_known() {
    let format = "%{x%}user@%m %1{=>%} %~";
    let literals = prompt_literals(format);
    assert_eq!(literals, vec!["user@", "=>"]);
    let list: Vec<&str> = literals.iter().map(|s| s.as_str()).collect();
    let line = format!("12:30 {} ls", parse_prompt_pattern(format));
    assert!(is_prompt_line(&line, &list));
    assert!(!is_prompt_line("user@ ls", &list));
}

#[test]
fn command_follows_the_last_literal() {
    let literals = vec!["ab", "bc"];
    assert_eq!(extract_command_from_prompt_line("ab ls abc  x ", &literals), "x");
    assert_eq!(extract_command_from_prompt_line("  none  ", &literals), "none");
    assert_eq!(extract_command_from_prompt_line("x ab", &literals), "");
    assert_eq!(extract_command_from_prompt_line(" all ", &[]), "all");
}

#[test]
fn last_cd_with_a_target_counts() {
    assert_eq!(find_cd_in_line("> cd a && cd b; ls"), Some("b"));
    assert_eq!(find_cd_in_line("> cd a && cd "), Some("a"));
    assert_eq!(find_cd_in_line("> cd  deep/er | cat"), Some("deep/er"));
    assert_eq!(find_cd_in_line("cd a"), None);
    assert_eq!(find_cd_in_line("> cd ;x"), None);
}

#[test]
fn directory_name_behind_the_arrow() {
    assert_eq!(prompt_line_dirname("\u{279c}  proj git:(main)"), Some("proj"));
    assert_eq!(prompt_line_dirname("x \u{279c} a/b \u{279c} c"), Some("a"));
    assert_eq!(prompt_line_dirname("\u{279c}   "), None);
    assert_eq!(prompt_line_dirname("\u{279c} /x"), None);
    assert_eq!(prompt_line_dirname("proj"), None);
}
