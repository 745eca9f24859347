//! Paths and the disk in memory.

use std::collections::HashSet;

use harvest::fs::{exists_at, Disk, Filesystem, MemFs};
use harvest::path::{
    components_of, is_absolute, join_path, make_relative, normalize_path, path_variants,
    rebase_path, render_of,
};

/// The disk of the machine.
struct RealFs;

impl Filesystem for RealFs {
    // A ghost value: nothing runs it.
    fn disk(&self) -> Disk {
        unreachable!()
    }

    fn path_exists(&self, path: &str) -> bool {
        std::path::Path::new(path).exists()
    }

    fn is_dir(&self, path: &str) -> bool {
        std::path::Path::new(path).is_dir()
    }
}

#[test]
fn normalize_removes_curdir() {
    assert_eq!(normalize_path("/a/b/./c"), "/a/b/c");
}

#[test]
fn normalize_removes_parentdir() {
    assert_eq!(normalize_path("/a/b/../c"), "/a/c");
}

#[test]
fn memfs_file_exists() {
    let fs = MemFs::new(&["/proj/src/main.rs"]);
    assert!(fs.path_exists("/proj/src/main.rs"));
    assert!(!fs.path_exists("/proj/src/other.rs"));
}

#[test]
fn memfs_parent_dirs_inferred() {
    let fs = MemFs::new(&["/proj/src/main.rs"]);
    assert!(fs.path_exists("/proj/src"));
    assert!(fs.path_exists("/proj"));
    assert!(fs.path_exists("/"));
}

#[test]
fn memfs_is_dir() {
    let fs = MemFs::new(&["/proj/src/main.rs"]);
    assert!(fs.is_dir("/proj/src"));
    assert!(!fs.is_dir("/proj/src/main.rs"));
}

#[test]
fn memfs_normalize_on_lookup() {
    let fs = MemFs::new(&["/proj/src/main.rs"]);
    assert!(fs.path_exists("/proj/./src/main.rs"));
    assert!(fs.path_exists("/proj/other/../src/main.rs"));
}

#[test]
fn rebase_subdir_candidate() {
    assert_eq!(
        rebase_path("./src/main.rs", "/harvest", "/harvest/src"),
        "./main.rs"
    );
}

#[test]
fn rebase_same_cwd() {
    assert_eq!(
        rebase_path("./src/main.rs", "/harvest", "/harvest"),
        "./src/main.rs"
    );
}

#[test]
fn rebase_outside_current_cwd_uses_dotdot() {
    assert_eq!(
        rebase_path("./foo.rs", "/project/tests", "/project/src"),
        "../tests/foo.rs"
    );
}

#[test]
fn rebase_deep_mismatch_falls_back_to_absolute() {
    assert_eq!(
        rebase_path("./file.txt", "/x/y", "/a/b/c/d/e"),
        "/x/y/file.txt"
    );
}

#[test]
fn variants_no_spaces() {
    assert_eq!(path_variants("/foo/bar"), vec!["/foo/bar"]);
}

#[test]
fn variants_with_spaces() {
    assert_eq!(path_variants("/foo/bar baz"), vec!["/foo/bar baz"]);
}

fn emit_candidates(
    candidates: Vec<String>,
    seen: &mut HashSet<String>,
    cwd: &str,
    fs: &dyn Filesystem,
) -> Vec<String> {
    let mut out = Vec::new();
    for candidate in candidates {
        if !seen.contains(&candidate) && exists_at(&candidate, cwd, fs) {
            for v in path_variants(&candidate) {
                if seen.insert(v.clone()) { out.push(v); }
            }
        }
    }
    out
}

#[test]
fn no_space_path_is_emitted() {
    let mut seen = HashSet::new();
    let result = emit_candidates(vec!["/tmp".to_string()], &mut seen, "/", &RealFs);
    assert_eq!(result, vec!["/tmp"]);
}

#[test]
fn no_space_path_deduped_on_second_occurrence() {
    let mut seen = HashSet::new();
    emit_candidates(vec!["/tmp".to_string()], &mut seen, "/", &RealFs);
    let result = emit_candidates(vec!["/tmp".to_string()], &mut seen, "/", &RealFs);
    assert!(result.is_empty());
}

#[test]
fn space_path_emits_both_variants() {
    let mut seen = HashSet::new();
    let result = emit_candidates(vec!["/tmp".to_string()], &mut seen, "/", &RealFs);
    assert_eq!(result.len(), 1);
    assert!(seen.contains("/tmp"));
}

#[test]
fn components_of_paths() {
    assert_eq!(components_of("/a//b/./c/"), vec!["/", "a", "b", "c"]);
    assert_eq!(components_of("./a/.."), vec![".", "a", ".."]);
    assert_eq!(components_of("a"), vec!["a"]);
    assert_eq!(components_of("/"), vec!["/"]);
    assert_eq!(components_of("."), vec!["."]);
    assert_eq!(components_of(""), Vec::<String>::new());
    assert_eq!(components_of(".hidden/..x"), vec![".hidden", "..x"]);
}

#[test]
fn components_agree_with_the_standard_library() {
    for p in ["", "/", ".", "..", "./", "//a", "a//b/", "/./a", "./../a", "a/./b/..", "/..", " /x "] {
        let own = components_of(p);
        let std: Vec<String> = std::path::Path::new(p)
            .components()
            .map(|c| c.as_os_str().to_string_lossy().into_owned())
            .collect();
        assert_eq!(own, std, "{p:?}");
        let spelled: std::path::PathBuf = std.iter().collect();
        assert_eq!(render_of(&own), spelled.to_string_lossy(), "{p:?}");
        for q in ["", "x", "/x", "./x"] {
            let joined = std::path::Path::new(p).join(q);
            assert_eq!(join_path(p, q), joined.to_string_lossy(), "{p:?} {q:?}");
        }
        assert_eq!(is_absolute(p), std::path::Path::new(p).is_absolute());
    }
}

#[test]
fn spelling_reads_back() {
    for cs in [vec!["/", "a", "b"], vec![".", "a"], vec!["..", "..", "x"], vec!["/"]] {
        let list: Vec<String> = cs.iter().map(|c| c.to_string()).collect();
        assert_eq!(components_of(&render_of(&list)), list);
    }
}

#[test]
fn normalize_at_the_ends() {
    assert_eq!(normalize_path("a/.."), ".");
    assert_eq!(normalize_path(""), ".");
    assert_eq!(normalize_path("./a"), "a");
    assert_eq!(normalize_path("../a"), "../a");
    assert_eq!(normalize_path("/.."), "/");
    assert_eq!(normalize_path("/../.."), "/");
    assert_eq!(normalize_path("/../a/.."), "/");
    assert_eq!(normalize_path("/a/../../b"), "/b");
    assert_eq!(normalize_path("../.."), "../..");
    assert_eq!(normalize_path("a/../../.."), "../..");
    assert_eq!(normalize_path("../../a/../b"), "../../b");
}

#[test]
fn dots_cancel_out() {
    for (p, q) in [("/a", "b"), ("..", "x/y"), ("/", ""), ("a/..", "../b")] {
        let plain = normalize_path(&join_path(p, q));
        assert_eq!(normalize_path(&join_path(&join_path(p, "n/.."), q)), plain);
        assert_eq!(normalize_path(&join_path(&join_path(p, "."), q)), plain);
    }
}

#[test]
fn normalize_twice_is_once() {
    for p in ["/a/./b/../c", "../x/..", "", "/../..//a", "a/b/../../.."] {
        let once = normalize_path(p);
        assert_eq!(normalize_path(&once), once);
    }
}

#[test]
fn relative_path_leads_there() {
    assert_eq!(make_relative("/a/b", "/a/c/d"), "../c/d");
    assert_eq!(make_relative("/a/b", "/a/b"), ".");
    assert_eq!(make_relative("/a/b", "/a"), "..");
    assert_eq!(make_relative("/", "/x"), "x");
    for (from, to) in [("/a/b", "/a/c/d"), ("/a/b", "/a/b"), ("/x", "/"), ("/", "/y/z"), ("/../a", "/b")] {
        assert_eq!(normalize_path(&join_path(from, &make_relative(from, to))), to);
    }
}

#[test]
fn rebase_keeps_the_place() {
    for (c, dir, cwd) in [("../x", "/a/b", "/a"), ("y", "/p/q", "/p/q"), (".", "/d", "/e/f")] {
        let written = rebase_path(c, dir, cwd);
        assert_eq!(
            normalize_path(&join_path(cwd, &written)),
            normalize_path(&join_path(dir, c))
        );
    }
}

#[test]
fn rebase_takes_the_shorter_form_in_bytes() {
    assert_eq!(rebase_path(".", "/a", "/a"), ".");
    assert_eq!(rebase_path("x", "/a", "/b"), "/a/x");
    assert_eq!(rebase_path("x", "/abc", "/b"), "/abc/x");
    assert_eq!(rebase_path("x", "/r/abcd", "/r/b"), "../abcd/x");
    assert_eq!(rebase_path(".", "/xy", "/xy/b/c"), "/xy");
    assert_eq!(rebase_path(".", "/\u{279c}\u{279c}", "/\u{279c}\u{279c}/b/c"), "../..");
}

#[test]
fn rebase_of_an_absolute_candidate() {
    assert_eq!(rebase_path("/p/./x", "/d", "/p"), "./x");
}

#[test]
fn candidate_is_read_in_its_directory() {
    let fs = MemFs::new(&["/a/b"]);
    assert!(exists_at("b", "/a", &fs));
    assert!(exists_at("../a/b", "/c", &fs));
    assert!(exists_at("/a/./b", "/c", &fs));
    assert!(!exists_at("b", "/", &fs));
}

#[test]
fn memory_holds_relative_files() {
    let fs = MemFs::new(&["a/b"]);
    assert!(fs.path_exists("a/b"));
    assert!(fs.is_dir("a"));
    assert!(fs.is_dir("/"));
    assert!(!fs.path_exists("/a/b"));
    assert!(!fs.path_exists("."));
}

#[test]
fn memory_knows_the_parent_of_the_root() {
    let fs = MemFs::new(&["/proj/main.rs", "note"]);
    assert!(fs.path_exists("/../proj/main.rs"));
    assert!(fs.path_exists("/proj/../../proj/./main.rs"));
    assert!(fs.is_dir("/../../proj"));
    assert!(fs.is_dir("/.."));
    assert!(!fs.path_exists("/../main.rs"));
    assert!(fs.path_exists("a/../note"));
    assert!(!fs.path_exists("../../note"));
}

#[test]
fn memory_holds_a_file_declared_behind_the_root() {
    let fs = MemFs::new(&["/../a/b", "/../../c"]);
    assert!(fs.path_exists("/../a/b"));
    assert!(fs.path_exists("/a/b"));
    assert!(fs.is_dir("/../a"));
    assert!(fs.is_dir("/.."));
    assert!(fs.path_exists("/c"));
    assert!(!fs.is_dir("/c"));
}

#[test]
fn memory_without_files_has_the_root() {
    let fs = MemFs::new(&[]);
    assert!(fs.is_dir("/"));
    assert!(!fs.path_exists("/a"));
}
