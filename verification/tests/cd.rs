//! Changes of directory.

use harvest::cd::{
    best_candidate, extract_dir_candidates, parse_cd, resolve_env_token, undo_cd,
};
use harvest::fs::{Disk, Filesystem, MemFs};
use harvest::path::{join_path, normalize_path};
use harvest::vars::Vars;

/// The disk of the machine.
struct RealFs;

impl Filesystem for RealFs {
    // A ghost value: nothing runs it.
    fn disk(&self) -> Disk {
        unreachable!()
    }

    fn path_exists(&self, path: &str) -> bool {
        std::path::Path::new(path).exists()
    }

    fn is_dir(&self, path: &str) -> bool {
        std::path::Path::new(path).is_dir()
    }
}

fn vars(pairs: &[(&str, &str)]) -> Vars {
    Vars::new(pairs.iter().map(|(n, v)| (n.to_string(), v.to_string())).collect())
}

fn no_vars() -> Vars {
    vars(&[])
}

#[test]
fn undo_cd_simple_subdir() {
    assert_eq!(
        undo_cd("src", "/Users/anton/proj/harvest/src"),
        Some("/Users/anton/proj/harvest".to_string())
    );
}

#[test]
fn undo_cd_multi_component() {
    assert_eq!(
        undo_cd("proj/harvest", "/Users/anton/proj/harvest"),
        Some("/Users/anton".to_string())
    );
}

#[test]
fn undo_cd_mismatch_returns_none() {
    assert_eq!(undo_cd("other", "/Users/anton/proj/harvest/src"), None);
}

#[test]
fn undo_cd_absolute_returns_none() {
    assert_eq!(undo_cd("/tmp", "/tmp"), None);
}

#[test]
fn undo_cd_parent_returns_none() {
    assert_eq!(undo_cd("..", "/Users/anton"), None);
}

#[test]
fn undo_cd_dash_returns_none() {
    assert_eq!(undo_cd("-", "/tmp"), None);
}

#[test]
fn parse_cd_absolute() {
    assert_eq!(
        parse_cd("cd /tmp", "/", &no_vars(), &RealFs),
        Some("/tmp".to_string())
    );
}

#[test]
fn parse_cd_tilde() {
    let home = "/tmp".to_string();
    assert_eq!(
        parse_cd("cd ~", "/", &vars(&[("HOME", &home)]), &RealFs),
        Some(home)
    );
}

#[test]
fn parse_cd_dash_returns_none() {
    assert_eq!(parse_cd("cd -", "/tmp", &no_vars(), &RealFs), None);
}

#[test]
fn parse_cd_no_cd_returns_none() {
    assert_eq!(parse_cd("ls -la", "/tmp", &no_vars(), &RealFs), None);
}

#[test]
fn parse_cd_nonexistent_returns_none() {
    assert_eq!(parse_cd("cd /this/does/not/exist/ever", "/tmp", &no_vars(), &RealFs), None);
}

#[test]
fn parse_cd_quoted() {
    assert_eq!(
        parse_cd("cd \"/tmp\"", "/", &no_vars(), &RealFs),
        Some("/tmp".to_string())
    );
}

#[test]
fn parse_cd_memfs() {
    let fs = MemFs::new(&["/proj/yankrich/src/main.rs"]);
    assert_eq!(
        parse_cd("cd /proj/yankrich", "/", &no_vars(), &fs),
        Some("/proj/yankrich".to_string())
    );
    assert_eq!(
        parse_cd("cd /proj/yankrich/src", "/proj/yankrich", &no_vars(), &fs),
        Some("/proj/yankrich/src".to_string())
    );
    assert_eq!(parse_cd("cd /proj/other", "/", &no_vars(), &fs), None);
}

#[test]
fn resolve_env_token_dollar_var() {
    let home = "/home/me".to_string();
    assert_eq!(resolve_env_token("$HOME", &vars(&[("HOME", &home)])), Some(home));
}

#[test]
fn resolve_env_token_braces() {
    let home = "/home/me".to_string();
    assert_eq!(resolve_env_token("${HOME}", &vars(&[("HOME", &home)])), Some(home));
}

#[test]
fn resolve_env_token_unknown_returns_none() {
    assert_eq!(resolve_env_token("$HARVEST_TOTALLY_UNKNOWN_VAR_XYZ123", &no_vars()), None);
}

#[test]
fn resolve_env_token_no_dollar_returns_none() {
    assert_eq!(resolve_env_token("HOME", &no_vars()), None);
}

#[test]
fn resolve_env_token_bare_dollar_returns_none() {
    assert_eq!(resolve_env_token("$", &no_vars()), None);
}

#[test]
fn dir_candidates_absolute_dir() {
    let c = extract_dir_candidates("find /tmp -name '*.rs'", "/", &no_vars(), &RealFs);
    assert!(c.contains(&"/tmp".to_string()), "got: {c:?}");
}

#[test]
fn dir_candidates_absolute_file_excluded() {
    let c = extract_dir_candidates("/etc/hosts", "/", &no_vars(), &RealFs);
    assert!(!c.contains(&"/etc/hosts".to_string()), "got: {c:?}");
}

#[test]
fn dir_candidates_dotdot() {
    let c = extract_dir_candidates("cd ..", "/tmp", &no_vars(), &RealFs);
    assert!(c.iter().any(|p| p == "/"), "got: {c:?}");
}

#[test]
fn dir_candidates_subshell_pattern() {
    let c = extract_dir_candidates("cd .. && find . | grep main", "/tmp", &no_vars(), &RealFs);
    assert!(c.iter().any(|p| p == "/"), "got: {c:?}");
}

#[test]
fn dir_candidates_inline_assignment_abs() {
    let c = extract_dir_candidates("MYDIR=/tmp vim file.txt", "/", &no_vars(), &RealFs);
    assert!(c.contains(&"/tmp".to_string()), "got: {c:?}");
}

#[test]
fn dir_candidates_dedup() {
    let c = extract_dir_candidates("/tmp /tmp", "/", &no_vars(), &RealFs);
    assert_eq!(c.iter().filter(|p| *p == "/tmp").count(), 1);
}

#[test]
fn dir_candidates_no_paths_returns_empty() {
    let c = extract_dir_candidates("echo hello world", "/tmp", &no_vars(), &RealFs);
    assert!(c.is_empty(), "got: {c:?}");
}

#[test]
fn dir_candidates_memfs() {
    let fs = MemFs::new(&["/proj/yankrich/src/main.rs"]);
    let c = extract_dir_candidates("cd ..", "/proj/yankrich", &no_vars(), &fs);
    assert!(c.contains(&"/proj".to_string()), "got: {c:?}");
    let c2 = extract_dir_candidates("find /tmp", "/", &no_vars(), &fs);
    assert!(!c2.contains(&"/tmp".to_string()), "got: {c2:?}");
}

#[test]
fn dir_candidates_escaped_space_absolute() {
    if std::path::Path::new("/Library/Application Support").is_dir() {
        let c = extract_dir_candidates(
            r"cd /Library/Application\ Support", "/", &no_vars(), &RealFs,
        );
        assert!(c.contains(&"/Library/Application Support".to_string()), "got: {c:?}");
    }
}

#[test]
fn best_candidate_picks_most_matches() {
    let candidates = vec!["/".to_string(), "/tmp".to_string()];
    let rel_paths = vec!["./tmp".to_string(), "./etc".to_string()];
    assert_eq!(best_candidate(&candidates, &rel_paths, &RealFs), "/".to_string());
}

#[test]
fn best_candidate_tie_goes_to_first() {
    let candidates = vec!["/tmp".to_string(), "/".to_string()];
    assert_eq!(best_candidate(&candidates, &[], &RealFs), "/tmp".to_string());
}

#[test]
fn best_candidate_memfs() {
    let fs = MemFs::new(&[
        "/proj/yankrich/src/ansi.rs",
        "/proj/yankrich/src/main.rs",
    ]);
    let candidates = vec![
        "/proj".to_string(),
        "/proj/yankrich".to_string(),
    ];
    let rel_paths = vec!["./src/ansi.rs".to_string(), "./src/main.rs".to_string()];
    assert_eq!(
        best_candidate(&candidates, &rel_paths, &fs),
        "/proj/yankrich".to_string(),
        "yankrich should win — both paths resolve there"
    );
}

#[test]
fn best_candidate_early_exit_on_perfect_match() {
    let fs = MemFs::new(&[
        "/proj/a/foo.rs",
        "/proj/a/bar.rs",
        "/proj/b/foo.rs",
    ]);
    let candidates = vec![
        "/proj/a".to_string(), // perfect: resolves all 2 rel_paths
        "/proj/b".to_string(), // partial: only foo.rs
    ];
    let rel_paths = vec!["./foo.rs".to_string(), "./bar.rs".to_string()];
    assert_eq!(best_candidate(&candidates, &rel_paths, &fs), "/proj/a".to_string());
}

#[test]
fn first_definition_of_a_variable_counts() {
    let env = vars(&[("A", "one"), ("A", "two"), ("B", "")]);
    assert_eq!(env.get("A"), Some("one".to_string()));
    assert_eq!(env.get("B"), Some("".to_string()));
    assert_eq!(env.get("C"), None);
}

#[test]
fn token_with_braces_loses_all_that_close() {
    let env = vars(&[("A", "x"), ("{A", "y"), ("A}", "z")]);
    assert_eq!(resolve_env_token("${A}}", &env), Some("x".to_string()));
    assert_eq!(resolve_env_token("$A}", &env), Some("z".to_string()));
    assert_eq!(resolve_env_token("${}", &env), None);
}

#[test]
fn bare_cd_leads_home() {
    let fs = MemFs::new(&[]);
    assert_eq!(parse_cd(" cd ", "/w", &vars(&[("HOME", "/h")]), &fs), Some("/h".to_string()));
    assert_eq!(parse_cd("cd", "/w", &no_vars(), &fs), Some("".to_string()));
}

#[test]
fn cd_below_home() {
    let fs = MemFs::new(&["/h/a/b"]);
    let env = vars(&[("HOME", "/h")]);
    assert_eq!(parse_cd("cd ~/a", "/w", &env, &fs), Some("/h/a".to_string()));
    assert_eq!(parse_cd("cd '~/a'", "/w", &env, &fs), Some("/h/a".to_string()));
    assert_eq!(parse_cd("cd ~/c", "/w", &env, &fs), None);
    assert_eq!(parse_cd("cd ~/h/a", "/w", &no_vars(), &fs), Some("/h/a".to_string()));
}

#[test]
fn cd_to_a_relative_directory() {
    let fs = MemFs::new(&["/w/a/b"]);
    assert_eq!(parse_cd("cd ./a/../a/", "/w", &no_vars(), &fs), Some("/w/a".to_string()));
    assert_eq!(parse_cd("cd \"'a'\"", "/w", &no_vars(), &fs), Some("/w/a".to_string()));
    assert_eq!(parse_cd("cdx", "/w", &no_vars(), &fs), None);
    assert_eq!(parse_cd("cd\ta", "/w", &no_vars(), &fs), None);
}

#[test]
fn undo_needs_a_target_that_leads_down() {
    assert_eq!(undo_cd("", "/a"), None);
    assert_eq!(undo_cd("~", "/a"), None);
    assert_eq!(undo_cd("~/a", "/h/a"), None);
    assert_eq!(undo_cd("b/..", "/a/b"), None);
    assert_eq!(undo_cd("./b", "/a/b"), None);
    assert_eq!(undo_cd("a/b", "a/b"), None);
}

#[test]
fn undo_reads_over_quotes_and_spelling() {
    assert_eq!(undo_cd(" \"b\" ", "/a/b"), Some("/a".to_string()));
    assert_eq!(undo_cd("b//c/.", "/a/b/c/"), Some("/a".to_string()));
    assert_eq!(undo_cd("a", "/a"), Some("/".to_string()));
    assert_eq!(undo_cd("b", "./b"), Some(".".to_string()));
}

#[test]
fn undo_undoes_cd() {
    let fs = MemFs::new(&["/w/a/b/c"]);
    let there = parse_cd("cd a/b", "/w", &no_vars(), &fs).unwrap();
    assert_eq!(there, "/w/a/b");
    assert_eq!(undo_cd("a/b", &there), Some("/w".to_string()));
}

#[test]
fn undone_directory_leads_there() {
    let before = undo_cd("b/c", "/a/b/c").unwrap();
    assert_eq!(normalize_path(&join_path(&before, "b/c")), "/a/b/c");
}

#[test]
fn directories_of_all_kinds_in_a_command() {
    let fs = MemFs::new(&["/w/rel/x", "/abs/x", "/h/sub/x", "/v/in/x", "/e/x"]);
    let env = vars(&[("HOME", "/h"), ("V", "/v"), ("R", "rel")]);
    let cmd = "ls rel/ /abs ~ ~/sub $V/in $R A=/e B=$V C=~ D=~/sub . .. plain";
    assert_eq!(
        extract_dir_candidates(cmd, "/w", &env, &fs),
        vec!["/w/rel", "/abs", "/h", "/h/sub", "/v/in", "/e", "/v", "/w", "/"]
    );
}

#[test]
fn token_can_name_two_directories() {
    let fs = MemFs::new(&["/w/a=/b/x", "/b/x"]);
    assert_eq!(extract_dir_candidates("a=/b", "/w", &no_vars(), &fs), vec!["/w/a=/b", "/b"]);
}

#[test]
fn unknown_variable_names_no_directory() {
    let fs = MemFs::new(&["/w/x"]);
    assert!(extract_dir_candidates("ls $NO/w A=$NO ~", "/w", &no_vars(), &fs).is_empty());
}

#[test]
fn best_candidate_with_most_paths_wins() {
    let fs = MemFs::new(&["/a/1", "/b/1", "/b/2", "/c/1", "/c/2"]);
    let dirs = vec!["/a".to_string(), "/b".to_string(), "/c".to_string()];
    let rels = vec!["1".to_string(), "2".to_string(), "3".to_string()];
    assert_eq!(best_candidate(&dirs, &rels, &fs), "/b");
    let rels = vec!["3".to_string()];
    assert_eq!(best_candidate(&dirs, &rels, &fs), "/a");
}
