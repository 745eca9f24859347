//! Tokens and candidates in a line.

use harvest::fs::{Disk, Filesystem, MemFs};
use harvest::parse::{
    extract_absolute, extract_absolute_greedy, extract_dotwords, extract_relative, tokenize,
    trim_path_suffix,
};

/// The disk of the machine.
struct RealFs;

impl Filesystem for RealFs {
    // A ghost value: nothing runs it.
    fn disk(&self) -> Disk {
        unreachable!()
    }

    fn path_exists(&self, path: &str) -> bool {
        std::path::Path::new(path).exists()
    }

    fn is_dir(&self, path: &str) -> bool {
        std::path::Path::new(path).is_dir()
    }
}

#[test]
fn tokenize_basic() {
    assert_eq!(tokenize("foo bar baz"), vec!["foo", "bar", "baz"]);
}

#[test]
fn tokenize_escaped_spaces() {
    assert_eq!(
        tokenize(r"la /Users/anton/Pictures/Screen\ Recording\ 2026.mov"),
        vec!["la", "/Users/anton/Pictures/Screen Recording 2026.mov"]
    );
}

#[test]
fn tokenize_strips_delimiters() {
    assert_eq!(tokenize("foo(bar)"), vec!["foo", "bar"]);
    assert_eq!(tokenize("\"foo\" 'bar'"), vec!["foo", "bar"]);
}

#[test]
fn tokenize_backslash_non_space() {
    assert_eq!(tokenize(r"foo\nbar"), vec![r"foo\nbar"]);
}

#[test]
fn absolute_basic() {
    assert_eq!(extract_absolute("see /foo/bar and done"), vec!["/foo/bar"]);
}

#[test]
fn absolute_trailing_punctuation() {
    assert_eq!(extract_absolute("error at /foo/bar.rs:10"), vec!["/foo/bar.rs"]);
    assert_eq!(extract_absolute("see /foo/bar,"), vec!["/foo/bar"]);
    assert_eq!(extract_absolute("/foo/bar.cmake:42:"), vec!["/foo/bar.cmake"]);
    assert_eq!(extract_absolute("/foo/bar.rs:10:"), vec!["/foo/bar.rs"]);
}

#[test]
fn absolute_escaped_spaces() {
    assert_eq!(
        extract_absolute(r"la /Users/anton/Pictures/Screen\ Recording.mov"),
        vec!["/Users/anton/Pictures/Screen Recording.mov"]
    );
}

#[test]
fn absolute_ignores_bare_slash() {
    assert!(extract_absolute("cd /").is_empty());
}

#[test]
fn absolute_ignores_slash_from_dotdot() {
    assert!(extract_absolute("cd $(pwd)/..").iter().all(|p| p != "/"));
}

#[test]
fn absolute_embedded_after_colon() {
    assert_eq!(extract_absolute("CACHE_DIR:/foo/bar"), vec!["/foo/bar"]);
    assert_eq!(extract_absolute("error:/foo/bar.rs"), vec!["/foo/bar.rs"]);
}

#[test]
fn absolute_embedded_after_equals() {
    assert_eq!(extract_absolute("PREFIX=/foo/bar"), vec!["/foo/bar"]);
    assert_eq!(extract_absolute("CMAKE_INSTALL_PREFIX=/home/user/proj"), vec!["/home/user/proj"]);
}

#[test]
fn relative_basic() {
    assert_eq!(extract_relative("see src/main.rs here"), vec!["src/main.rs"]);
}

#[test]
fn relative_dotslash() {
    assert_eq!(extract_relative("run ./foo/bar"), vec!["./foo/bar"]);
}

#[test]
fn relative_parent() {
    assert_eq!(extract_relative("edit ../config/x.yaml"), vec!["../config/x.yaml"]);
}

#[test]
fn relative_ignores_absolute() {
    assert!(extract_relative("/foo/bar").is_empty());
}

#[test]
fn relative_trailing_punctuation() {
    assert_eq!(extract_relative("see src/main.rs,"), vec!["src/main.rs"]);
}

#[test]
fn dotwords_basic() {
    assert_eq!(extract_dotwords("edit main.rs"), vec!["main.rs"]);
    assert_eq!(extract_dotwords("config.yaml found"), vec!["config.yaml"]);
}

#[test]
fn dotwords_ignores_absolute() {
    assert!(extract_dotwords("/foo/bar.rs").is_empty());
}

#[test]
fn dotwords_ignores_relative_paths() {
    assert!(extract_dotwords("src/main.rs").is_empty());
}

#[test]
fn dotwords_ignores_urls() {
    assert!(extract_dotwords("https://example.com").is_empty());
    assert!(extract_dotwords("http://foo.bar").is_empty());
}

#[test]
fn dotwords_trailing_punctuation() {
    assert_eq!(extract_dotwords("see main.rs."), vec!["main.rs"]);
}

#[test]
fn greedy_joins_spaces() {
    let results = extract_absolute_greedy("drwxr-xr-x  2 user  staff  /tmp", &RealFs);
    assert!(results.contains(&"/tmp".to_string()));
}

#[test]
fn greedy_no_false_positive() {
    let results = extract_absolute_greedy("no path here at all", &RealFs);
    assert!(results.is_empty());
}

#[test]
fn tokens_end_at_brackets_and_unicode_space() {
    assert_eq!(tokenize("[a]<b>\u{3000}c\td"), vec!["a", "b", "c", "d"]);
    assert_eq!(tokenize(""), Vec::<String>::new());
    assert_eq!(tokenize(" \" "), Vec::<String>::new());
}

#[test]
fn escaped_space_at_the_end_of_a_token() {
    assert_eq!(tokenize("a\\ "), vec!["a "]);
    assert_eq!(tokenize("a\\"), vec!["a\\"]);
    assert_eq!(tokenize("a\\\\ b"), vec!["a\\ b"]);
}

#[test]
fn escaped_path_is_one_token() {
    let path = "/srv/My Files/a copy";
    let escaped = path.replace(' ', "\\ ");
    assert_eq!(tokenize(&escaped), vec![path]);
    assert_eq!(extract_absolute(&escaped), vec![path]);
}

#[test]
fn separators_divide_tokens() {
    let both = tokenize("/a/b (c/d)");
    let mut apart = tokenize("/a/b");
    apart.extend(tokenize("(c/d)"));
    assert_eq!(both, apart);
}

#[test]
fn suffix_of_marks_and_line_number() {
    assert_eq!(trim_path_suffix("file.rs:42"), "file.rs");
    assert_eq!(trim_path_suffix("file.rs:42;,"), "file.rs");
    assert_eq!(trim_path_suffix("file.rs:42:10"), "file.rs:42");
    assert_eq!(trim_path_suffix("file.rs..:"), "file.rs");
    assert_eq!(trim_path_suffix("file.rs.,"), "file.rs");
    assert_eq!(trim_path_suffix("file.rs,."), "file.rs,");
    assert_eq!(trim_path_suffix("part10"), "part10");
    assert_eq!(trim_path_suffix(":7"), "");
    assert_eq!(trim_path_suffix("7"), "7");
    assert_eq!(trim_path_suffix(",;"), "");
}

#[test]
fn absolute_needs_more_than_the_root() {
    assert_eq!(extract_absolute("/. /, /a"), vec!["/a"]);
    assert_eq!(extract_absolute("x=/"), Vec::<String>::new());
    assert_eq!(extract_absolute("a=b:/c=/d"), vec!["/c=/d"]);
    assert_eq!(extract_absolute("http://host/x"), vec!["//host/x"]);
}

#[test]
fn relative_keeps_its_separator() {
    assert_eq!(extract_relative("src/. a/:3 b,"), vec!["src/", "a/"]);
    assert_eq!(extract_relative("a= x/y"), vec!["x/y"]);
}

#[test]
fn dotword_may_lose_its_dot() {
    assert_eq!(extract_dotwords("done. httpd.conf ... v1.2"), vec!["done", "v1.2"]);
}

#[test]
fn greedy_takes_the_shortest_path_that_exists() {
    let fs = MemFs::new(&["/d/My File.txt", "/d/My"]);
    assert_eq!(extract_absolute_greedy("-rw /d/My File.txt", &fs), vec!["/d/My"]);
    let fs = MemFs::new(&["/d/My File.txt"]);
    assert_eq!(extract_absolute_greedy("-rw /d/My File.txt, x", &fs), vec!["/d/My File.txt"]);
}

#[test]
fn greedy_goes_on_behind_a_path() {
    let fs = MemFs::new(&["/a b", "/c"]);
    assert_eq!(extract_absolute_greedy("/a b /c /nowhere", &fs), vec!["/a b", "/c"]);
}

#[test]
fn greedy_joins_twenty_words() {
    let words: Vec<String> = (0..20).map(|i| format!("w{i}x")).collect();
    let path = format!("/{}", words.join(" "));
    let fs = MemFs::new(&[path.as_str()]);
    assert_eq!(extract_absolute_greedy(&path, &fs), vec![path.clone()]);
    let longer = format!("{path} more");
    let fs = MemFs::new(&[longer.as_str()]);
    assert!(extract_absolute_greedy(&longer, &fs).is_empty());
}
