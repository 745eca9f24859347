//! The whole pipeline on a disk in memory: each test declares the files that exist, feeds in a
//! scrollback and a log of commands, and looks at the result.

use harvest::fs::MemFs;
use harvest::pipeline::run_harvest;
use harvest::vars::Vars;

const PROMPT: &str = r"%(?:%{%}%1{➜%} :%{%}%1{➜%} ) %{%}%c%{%} $(git_prompt_info)";

struct Scenario {
    fs: MemFs,
    env: Vec<(String, String)>,
}

impl Scenario {
    fn new(files: &[&str]) -> Self {
        Self { fs: MemFs::new(files), env: Vec::new() }
    }

    fn with_var(mut self, name: &str, value: &str) -> Self {
        self.env.push((name.to_string(), value.to_string()));
        self
    }

    fn run(
        &self,
        scrollback: &[&str],
        cwd: &str,
        prompt: Option<&str>,
        cwd_log: &[(&str, &str)],
    ) -> Vec<String> {
        let lines = scrollback.iter().map(|s| s.to_string()).collect();
        let log = cwd_log.iter()
            .map(|(c, cmd)| (c.to_string(), cmd.to_string()))
            .collect();
        let env = Vars::new(self.env.clone());
        run_harvest(lines, cwd.to_string(), prompt.map(str::to_string), log, &env, &self.fs)
    }
}

// Prompt line helpers matching the oh-my-zsh theme
fn pl(dir: &str) -> String { format!("➜  {dir} ") }
fn plg(dir: &str, branch: &str) -> String { format!("➜  {dir} git:({branch}) ✗ ") }
fn plgc(dir: &str, branch: &str, cmd: &str) -> String { format!("➜  {dir} git:({branch}) ✗ {cmd}") }

// ── Basic cases ───────────────────────────────────────────────────────────────

#[test]
fn relative_paths_same_dir() {
    let s = Scenario::new(&["/proj/src/main.rs", "/proj/src/lib.rs"]);
    let result = s.run(
        &[
            &plgc("proj", "main", "find . | grep rs$"),
            "./src/main.rs",
            "./src/lib.rs",
            &pl("proj"),
        ],
        "/proj",
        Some(PROMPT),
        &[("/proj", "find . | grep rs$")],
    );
    assert!(result.iter().any(|p| p == "./src/main.rs"), "got: {result:?}");
    assert!(result.iter().any(|p| p == "./src/lib.rs"), "got: {result:?}");
}

#[test]
fn absolute_paths_no_prompt() {
    let s = Scenario::new(&["/proj/src/main.rs"]);
    let result = s.run(
        &["error at /proj/src/main.rs:42"],
        "/other",
        None,
        &[],
    );
    assert!(result.contains(&"/proj/src/main.rs".to_string()), "got: {result:?}");
}

#[test]
fn no_prompt_means_no_dotwords() {
    let s = Scenario::new(&["/proj/src/main.rs"]);
    let result = s.run(&["edit main.rs"], "/proj/src", None, &[]);
    assert!(!result.contains(&"main.rs".to_string()), "got: {result:?}");
}

#[test]
fn dotwords_with_prompt_active() {
    let s = Scenario::new(&["/proj/src/main.rs"]);
    let result = s.run(
        &[
            &plgc("src", "main", "cargo build"),
            "   Compiling main.rs",
            &pl("src"),
        ],
        "/proj/src",
        Some(PROMPT),
        &[("/proj/src", "cargo build")],
    );
    assert!(result.iter().any(|p| p == "main.rs" || p == "./main.rs"), "got: {result:?}");
}

// ── CWD tracking ─────────────────────────────────────────────────────────────

#[test]
fn relative_paths_rebased_after_cd() {
    // find in yankrich, then cd .., trigger from proj
    let s = Scenario::new(&[
        "/proj/yankrich/src/ansi.rs",
        "/proj/yankrich/src/main.rs",
        "/proj/yankrich/src/blocks.rs",
    ]);
    let result = s.run(
        &[
            &plgc("yankrich", "main", "find . | grep rs$"),
            "./src/ansi.rs",
            "./src/main.rs",
            "./src/blocks.rs",
            &plgc("yankrich", "main", "cd .."),
            &pl("proj"),
        ],
        "/proj",
        Some(PROMPT),
        &[
            ("/proj/yankrich", "find . | grep rs$"),
            ("/proj/yankrich", "cd .."),
        ],
    );
    assert!(
        result.iter().any(|p| p == "./yankrich/src/ansi.rs"),
        "expected ./yankrich/src/ansi.rs, got: {result:?}"
    );
    assert!(
        result.iter().any(|p| p == "./yankrich/src/main.rs"),
        "got: {result:?}"
    );
}

#[test]
fn undo_cd_fallback_when_no_log() {
    // No cwd_log at all — undo_cd must reconstruct the section CWD from prompt lines
    let s = Scenario::new(&["/proj/yankrich/src/main.rs"]);
    let result = s.run(
        &[
            &plgc("yankrich", "main", "find . | grep rs$"),
            "./src/main.rs",
            &plgc("yankrich", "main", "cd .."),
            &pl("proj"),
        ],
        "/proj",
        Some(PROMPT),
        &[], // empty log
    );
    assert!(
        result.iter().any(|p| p == "./yankrich/src/main.rs"),
        "undo_cd should reconstruct yankrich CWD, got: {result:?}"
    );
}

#[test]
fn undo_cd_fallback_when_log_entry_missing() {
    // Log exists but the find command has no entry (e.g. ran before harvest was set up)
    let s = Scenario::new(&["/proj/yankrich/src/main.rs"]);
    let result = s.run(
        &[
            &plgc("yankrich", "main", "find . | grep rs$"),
            "./src/main.rs",
            &plgc("yankrich", "main", "cd .."),
            &pl("proj"),
        ],
        "/proj",
        Some(PROMPT),
        &[("/proj/yankrich", "cd ..")], // only cd is logged, not find
    );
    assert!(
        result.iter().any(|p| p == "./yankrich/src/main.rs"),
        "undo_cd should fill in for missing find entry, got: {result:?}"
    );
}

#[test]
fn absolute_cd_loses_tracking_falls_back_to_args_cwd() {
    // cd /absolute — undo_cd can't reverse it; the section before it uses args.cwd
    let s = Scenario::new(&[
        "/proj/src/main.rs",
        "/other/src/lib.rs",
    ]);
    let result = s.run(
        &[
            &plgc("other", "main", "find . | grep rs$"),
            "./src/lib.rs",
            &plgc("other", "main", "cd /proj"),
            &pl("proj"),
        ],
        "/proj",
        Some(PROMPT),
        &[
            ("/other", "find . | grep rs$"),
            ("/proj", "cd /proj"),
        ],
    );
    // /other/src/lib.rs should still resolve because cwd_log match gives /other
    assert!(
        result.iter().any(|p| p.contains("lib.rs")),
        "got: {result:?}"
    );
}

#[test]
fn cycling_same_locations_matches_correct_entry() {
    // User cycles A → B → A → B. Log has duplicate commands.
    // Most recent find (from B, second visit) should be used.
    let s = Scenario::new(&[
        "/proj/a/foo.rs",
        "/proj/b/bar.rs",
    ]);
    let result = s.run(
        &[
            // older visit to a
            &plgc("a", "main", "find . | grep rs$"),
            "./foo.rs",
            &plgc("a", "main", "cd ../b"),
            // newer visit to b
            &plgc("b", "main", "find . | grep rs$"),
            "./bar.rs",
            &plgc("b", "main", "cd ../a"),
            &pl("a"),
        ],
        "/proj/a",
        Some(PROMPT),
        &[
            ("/proj/a", "find . | grep rs$"),   // first visit
            ("/proj/a", "cd ../b"),
            ("/proj/b", "find . | grep rs$"),   // second visit
            ("/proj/b", "cd ../a"),
        ],
    );
    // bar.rs from the most recent find (in b) should appear as ../b/bar.rs
    assert!(
        result.iter().any(|p| p.contains("bar.rs")),
        "got: {result:?}"
    );
    // foo.rs from the older find (in a) should also appear
    assert!(
        result.iter().any(|p| p.contains("foo.rs")),
        "got: {result:?}"
    );
}

#[test]
fn most_recent_paths_appear_before_older() {
    // find in b (more recent) → bar.rs should come before foo.rs from a (older)
    let s = Scenario::new(&["/proj/a/foo.rs", "/proj/b/bar.rs"]);
    let result = s.run(
        &[
            &plgc("a", "main", "find . | grep rs$"),
            "./foo.rs",
            &plgc("a", "main", "cd ../b"),
            &plgc("b", "main", "find . | grep rs$"),
            "./bar.rs",
            &pl("b"),
        ],
        "/proj/b",
        Some(PROMPT),
        &[
            ("/proj/a", "find . | grep rs$"),
            ("/proj/a", "cd ../b"),
            ("/proj/b", "find . | grep rs$"),
        ],
    );
    let bar_pos = result.iter().position(|p| p.contains("bar.rs"));
    let foo_pos = result.iter().position(|p| p.contains("foo.rs"));
    assert!(bar_pos.is_some() && foo_pos.is_some(), "both files missing, got: {result:?}");
    assert!(
        bar_pos.unwrap() < foo_pos.unwrap(),
        "bar.rs (recent) should precede foo.rs (older), got: {result:?}"
    );
}

#[test]
fn deduplication_across_sections() {
    // main.rs appears in two different find outputs; should only appear once
    let s = Scenario::new(&["/proj/src/main.rs"]);
    let result = s.run(
        &[
            &plgc("proj", "main", "find . | grep rs$"),
            "./src/main.rs",
            &plgc("proj", "main", "find . | grep rs$"),
            "./src/main.rs",
            &pl("proj"),
        ],
        "/proj",
        Some(PROMPT),
        &[
            ("/proj", "find . | grep rs$"),
            ("/proj", "find . | grep rs$"),
        ],
    );
    let count = result.iter().filter(|p| p.contains("main.rs")).count();
    assert_eq!(count, 1, "main.rs should appear exactly once, got: {result:?}");
}

// ── Subshell / candidate voting ───────────────────────────────────────────────

#[test]
fn subshell_cd_resolved_via_candidates() {
    // (cd .. && find . | grep rs$) run from /proj/sub
    // preexec records /proj/sub but paths are relative to /proj
    let s = Scenario::new(&["/proj/src/main.rs", "/proj/src/lib.rs"]);
    let result = s.run(
        &[
            &plgc("sub", "main", "(cd .. && find . | grep rs$)"),
            "./src/main.rs",
            "./src/lib.rs",
            &pl("proj"),
        ],
        "/proj",
        Some(PROMPT),
        &[
            ("/proj/sub", "(cd .. && find . | grep rs$)"),
            ("/proj", ""),
        ],
    );
    // /proj is a candidate (from `..` in command); both paths exist there
    assert!(
        result.iter().any(|p| p.contains("main.rs")),
        "got: {result:?}"
    );
    assert!(
        result.iter().any(|p| p.contains("lib.rs")),
        "got: {result:?}"
    );
}

#[test]
fn find_with_relative_root_already_works() {
    // find ../../ | grep rs$ — output paths start with ../../, self-describing
    let s = Scenario::new(&["/proj/src/main.rs"]);
    let result = s.run(
        &[
            &plgc("a/b", "main", "find ../../ | grep rs$"),
            "../../src/main.rs",
            &pl("a/b"),
        ],
        "/proj/a/b",
        Some(PROMPT),
        &[("/proj/a/b", "find ../../ | grep rs$")],
    );
    // ../../src/main.rs from /proj/a/b = /proj/src/main.rs → exists → shown
    assert!(
        result.iter().any(|p| p.contains("main.rs")),
        "got: {result:?}"
    );
}

// ── Edge cases ────────────────────────────────────────────────────────────────

#[test]
fn empty_scrollback_returns_nothing() {
    let s = Scenario::new(&["/proj/src/main.rs"]);
    let result = s.run(&[], "/proj", Some(PROMPT), &[]);
    assert!(result.is_empty());
}

#[test]
fn paths_not_in_fs_are_excluded() {
    // Output mentions /proj/src/ghost.rs which doesn't exist in our MemFs
    let s = Scenario::new(&["/proj/src/main.rs"]);
    let result = s.run(
        &["/proj/src/ghost.rs", "/proj/src/main.rs"],
        "/proj",
        None,
        &[],
    );
    assert!(result.contains(&"/proj/src/main.rs".to_string()), "got: {result:?}");
    assert!(!result.contains(&"/proj/src/ghost.rs".to_string()), "got: {result:?}");
}

#[test]
fn multiple_dirs_in_scrollback_no_prompt() {
    // Without prompt there's no CWD tracking; only absolute paths or paths
    // that resolve against args.cwd are shown
    let s = Scenario::new(&[
        "/proj/src/main.rs",
        "/proj/src/lib.rs",
    ]);
    let result = s.run(
        &["/proj/src/main.rs", "/proj/src/lib.rs"],
        "/proj",
        None,
        &[],
    );
    assert!(result.contains(&"/proj/src/main.rs".to_string()), "got: {result:?}");
    assert!(result.contains(&"/proj/src/lib.rs".to_string()), "got: {result:?}");
}

#[test]
fn embedded_path_in_compiler_output() {
    // CMake/GCC style: "error:/proj/src/main.rs:42"
    let s = Scenario::new(&["/proj/src/main.rs"]);
    let result = s.run(
        &["error:/proj/src/main.rs:42: something failed"],
        "/proj",
        None,
        &[],
    );
    assert!(result.contains(&"/proj/src/main.rs".to_string()), "got: {result:?}");
}

#[test]
fn deep_cd_chain_tracked_by_log() {
    // cd a, cd b, cd c — each step logged, find run in c
    let s = Scenario::new(&["/proj/a/b/c/deep.rs"]);
    let result = s.run(
        &[
            &plgc("c", "main", "find . | grep rs$"),
            "./deep.rs",
            &plgc("c", "main", "cd ../../.."),
            &pl("proj"),
        ],
        "/proj",
        Some(PROMPT),
        &[
            ("/proj/a/b/c", "find . | grep rs$"),
            ("/proj/a/b/c", "cd ../../.."),
        ],
    );
    assert!(
        result.iter().any(|p| p.contains("deep.rs")),
        "got: {result:?}"
    );
}

#[test]
fn final_prompt_with_git_info_still_terminates_section() {
    // Final prompt shows git info (user stays in git repo, no cd).
    // Uses plg() — must still be recognised as a prompt line.
    let s = Scenario::new(&["/proj/src/main.rs", "/proj/src/lib.rs"]);
    let result = s.run(
        &[
            &plgc("proj", "main", "find . | grep rs$"),
            "./src/main.rs",
            "./src/lib.rs",
            &plg("proj", "main"),
        ],
        "/proj",
        Some(PROMPT),
        &[("/proj", "find . | grep rs$")],
    );
    assert!(result.iter().any(|p| p == "./src/main.rs"), "got: {result:?}");
    assert!(result.iter().any(|p| p == "./src/lib.rs"), "got: {result:?}");
}

#[test]
fn envvar_in_command_used_as_candidate() {
    // HARVEST_TEST_DIR=/proj/src is set; command uses $HARVEST_TEST_DIR as find root.
    // extract_dir_candidates should resolve the var and find /proj/src as candidate.
    let s = Scenario::new(&["/proj/src/main.rs", "/proj/src/lib.rs"])
        .with_var("HARVEST_TEST_DIR", "/proj/src");
    let result = s.run(
        &[
            &plgc("proj", "main", "find $HARVEST_TEST_DIR | grep rs$"),
            "/proj/src/main.rs",
            "/proj/src/lib.rs",
            &plg("proj", "main"),
        ],
        "/proj",
        Some(PROMPT),
        &[("/proj", "find $HARVEST_TEST_DIR | grep rs$")],
    );
    assert!(result.iter().any(|p| p.contains("main.rs")), "got: {result:?}");
    assert!(result.iter().any(|p| p.contains("lib.rs")), "got: {result:?}");
}

#[test]
fn relative_dotdot_sibling_path() {
    // Compiler output: ../other/file.rs from cwd /proj/src means /proj/other/file.rs
    let s = Scenario::new(&["/proj/other/file.rs"]);
    let result = s.run(
        &[
            &plgc("src", "main", "cargo build"),
            "../other/file.rs:10: error",
            &plg("src", "main"),
        ],
        "/proj/src",
        Some(PROMPT),
        &[("/proj/src", "cargo build")],
    );
    assert!(
        result.iter().any(|p| p.contains("file.rs")),
        "got: {result:?}"
    );
}

// ── What is found and where ──────────────────────────────────────────────────

#[test]
fn older_paths_are_written_for_the_present_directory() {
    let s = Scenario::new(&["/proj/harvest/src/main.rs"]);
    let result = s.run(
        &[
            &plgc("harvest", "main", "find . | grep main"),
            "./src/main.rs",
            &plgc("harvest", "main", "cd src"),
            &pl("src"),
        ],
        "/proj/harvest/src",
        Some(PROMPT),
        &[],
    );
    assert_eq!(result, vec!["./main.rs"]);
}

#[test]
fn changes_of_directory_are_walked_back() {
    let s = Scenario::new(&["/p/a/b/c/x.rs", "/p/y.rs"]);
    let result = s.run(
        &[
            &plgc("p", "main", "ls"),
            "./y.rs",
            &plgc("p", "main", "cd a/b"),
            &plgc("b", "main", "cd c"),
            "x.rs",
            &pl("c"),
        ],
        "/p/a/b/c",
        Some(PROMPT),
        &[],
    );
    assert_eq!(result, vec!["..", "/p/y.rs"]);
    let result = s.run(
        &[
            &plgc("b", "main", "ls"),
            "c/x.rs",
            &plgc("b", "main", "cd c"),
            "x.rs",
            &pl("c"),
        ],
        "/p/a/b/c",
        Some(PROMPT),
        &[],
    );
    assert_eq!(result, vec!["./x.rs"]);
}

#[test]
fn result_of_one_line_is_in_order() {
    let s = Scenario::new(&["/a/1", "/b/2", "/w/c/3", "/w/d/4", "/w/e.x", "/w/f.x"]);
    let line = "/a/1 e.x c/3 /b/2 f.x d/4";
    let result = s.run(&[&pl("w"), line], "/w", Some(PROMPT), &[]);
    assert_eq!(result, vec!["/b/2", "/a/1", "./d/4", "./c/3", "./f.x", "./e.x"]);
    let result = s.run(&[line], "/w", None, &[]);
    assert_eq!(result, vec!["/b/2", "/a/1", "./d/4", "./c/3"]);
}

#[test]
fn prompt_without_literals_is_no_prompt() {
    let s = Scenario::new(&["/w/e.x", "/w/d/4"]);
    let result = s.run(&["e.x d/4"], "/w", Some("%n %~ $"), &[("/else", "ls")]);
    assert_eq!(result, vec!["./d/4"]);
}

#[test]
fn log_makes_no_difference_without_prompt() {
    let s = Scenario::new(&["/w/d/4", "/v/d/4"]);
    let without = s.run(&["d/4", "> ls"], "/w", None, &[]);
    let with = s.run(&["d/4", "> ls"], "/w", None, &[("/v", "ls"), ("/v", "> ls")]);
    assert_eq!(without, with);
}

#[test]
fn lines_before_the_first_prompt_are_read_in_the_present_directory() {
    let s = Scenario::new(&["/w/one.x", "/v/one.x"]);
    let result = s.run(&["./one.x", &plgc("v", "main", "ls")], "/w", Some(PROMPT), &[("/v", "ls")]);
    assert_eq!(result, vec!["./one.x"]);
    let result = s.run(&[&plgc("v", "main", "ls"), "./one.x"], "/w", Some(PROMPT), &[("/v", "ls")]);
    assert_eq!(result, vec!["/v/one.x"]);
}

#[test]
fn only_the_last_twenty_prompts_are_tracked() {
    let s = Scenario::new(&["/v/one.x"]);
    let command = plgc("v", "main", "ls");
    let other = plgc("w", "main", "true");
    let mut lines: Vec<&str> = vec![&command, "./one.x"];
    for _ in 0..19 {
        lines.push(&other);
    }
    let log = [("/v", "ls")];
    assert_eq!(s.run(&lines, "/w", Some(PROMPT), &log), vec!["/v/one.x"]);
    lines.push(&other);
    assert!(s.run(&lines, "/w", Some(PROMPT), &log).is_empty());
}

#[test]
fn entries_of_the_log_are_taken_in_order() {
    let s = Scenario::new(&["/v/one.x", "/u/two.x"]);
    let command = plgc("v", "main", "ls");
    let lines = [command.as_str(), "./one.x", command.as_str(), "./two.x"];
    let result = s.run(&lines, "/w", Some(PROMPT), &[("/v", "ls"), ("/u", "ls")]);
    assert_eq!(result, vec!["/u/two.x", "/v/one.x"]);
    let result = s.run(&lines, "/w", Some(PROMPT), &[("/u", "ls"), ("/v", "ls")]);
    assert!(result.is_empty());
}

#[test]
fn command_of_the_log_stands_behind_a_space() {
    let s = Scenario::new(&["/v/one.x"]);
    let lines = ["\u{279c} xls", "./one.x"];
    assert!(s.run(&lines, "/w", Some(PROMPT), &[("/v", "ls")]).is_empty());
    let lines = ["\u{279c} ls", "./one.x"];
    assert_eq!(s.run(&lines, "/w", Some(PROMPT), &[("/v", "ls")]), vec!["/v/one.x"]);
    assert_eq!(s.run(&lines, "/w", Some(PROMPT), &[("/v", "\u{279c} ls")]), vec!["/v/one.x"]);
    assert!(s.run(&lines, "/w", Some(PROMPT), &[("/v", "")]).is_empty());
}

#[test]
fn prompt_names_the_directory_before_an_absolute_cd() {
    let s = Scenario::new(&["/proj/sub/one.x"]);
    let result = s.run(
        &[
            "\u{279c} sub ls",
            "./one.x",
            "\u{279c} sub cd /proj",
            "\u{279c} proj",
        ],
        "/proj",
        Some(PROMPT),
        &[],
    );
    assert_eq!(result, vec!["/proj", "./sub/one.x"]);
}

#[test]
fn home_in_a_command_is_a_candidate() {
    let s = Scenario::new(&["/home/me/notes/one.x"]).with_var("HOME", "/home/me");
    let lines = ["\u{279c} w find ~/notes", "./one.x"];
    assert_eq!(s.run(&lines, "/w", Some(PROMPT), &[]), vec!["/home/me/notes/one.x"]);
    let s = Scenario::new(&["/home/me/notes/one.x"]);
    assert!(s.run(&lines, "/w", Some(PROMPT), &[]).is_empty());
}

#[test]
fn variable_in_a_command_is_a_candidate() {
    let s = Scenario::new(&["/data/set/one.x"]).with_var("DATA", "/data");
    let lines = ["\u{279c} w ls ${DATA}/set", "./one.x"];
    assert_eq!(s.run(&lines, "/w", Some(PROMPT), &[]), vec!["/data/set/one.x"]);
}

#[test]
fn everything_in_the_result_exists() {
    let files = ["/p/a/x.rs", "/p/b/y.rs", "/q/z w.rs"];
    let fs = MemFs::new(&files);
    let s = Scenario::new(&files);
    let result = s.run(
        &[
            "\u{279c} a ls /q/z w.rs",
            "x.rs ./x.rs ../b/y.rs no.rs /p/c",
            "\u{279c} a cd ../b",
            "y.rs /q/z\\ w.rs",
        ],
        "/p/b",
        Some(PROMPT),
        &[("/p/a", "ls /q/z w.rs"), ("/p/a", "cd ../b")],
    );
    assert!(result.contains(&"../a/x.rs".to_string()));
    for p in &result {
        let place = if p.starts_with('/') { p.clone() } else { format!("/p/b/{p}") };
        assert!(harvest::fs::Filesystem::path_exists(&fs, &place), "{p}");
    }
}

#[test]
fn colours_in_the_prompt_do_not_lose_its_lines() {
    let s = Scenario::new(&["/v/one.x"]);
    let format = "%{%F{red}%}%1{\u{279c}%}%{%f%} %c ";
    let lines = ["\u{279c} v ls", "./one.x"];
    assert_eq!(s.run(&lines, "/w", Some(format), &[("/v", "ls")]), vec!["/v/one.x"]);
}

#[test]
fn unnamed_present_directory_is_read_as_it_is() {
    let s = Scenario::new(&["d/4", "../e/5"]);
    assert_eq!(s.run(&["d/4 ../e/5 ./d/6"], "", None, &[]), vec!["../e/5", "d/4"]);
}
