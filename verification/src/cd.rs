//! Changes of directory: where a command leads, where it came from, and which directories it
//! speaks of.

use vstd::prelude::*;
use crate::fs;
use crate::fs::{exists_at, first_components, same_list, Filesystem};
use crate::parse;
use crate::parse::tokenize;
use crate::path;
use crate::path::{components_of, is_absolute, is_dotdot, join_path, normalize_path, render_of};
use crate::text;
use crate::text::{begins_str, chars_of, count_trailing, count_until, push_new, same, text_of,
    trim_bounds, CharClass};
use crate::vars;
use crate::vars::Vars;

verus! {

// ---------------------------------------------------------------------------------------------
// Variables
// ---------------------------------------------------------------------------------------------

/// The name of the variable that a token `$NAME` or `${NAME}` speaks of.
pub open spec fn var_name(token: Seq<char>) -> Option<Seq<char>> {
    if token.len() > 0 && token[0] == '$' {
        let name = if token.len() > 1 && token[1] == '{' {
            text::trim_end(token.skip(2), CharClass::CloseBrace)
        } else {
            token.skip(1)
        };
        if name.len() > 0 {
            Some(name)
        } else {
            None
        }
    } else {
        None
    }
}

/// The value of the variable that a token speaks of.
pub open spec fn token_value(token: Seq<char>, env: Map<Seq<char>, Seq<char>>) -> Option<
    Seq<char>,
> {
    match var_name(token) {
        Some(name) => vars::lookup(env, name),
        None => None,
    }
}

/// The value of the variable that a token `$NAME` or `${NAME}` speaks of.
pub fn resolve_env_token(token: &str, env: &Vars) -> (r: Option<String>)
    ensures
        match r {
            Some(v) => token_value(token@, env@) == Some(v@),
            None => token_value(token@, env@) is None,
        },
{
    let cs: Vec<char> = chars_of(token);
    if cs.len() == 0 || cs[0] != '$' {
        return None;
    }
    let name: String;
    if cs.len() > 1 && cs[1] == '{' {
        let n: usize = count_trailing(&cs, 2, cs.len(), CharClass::CloseBrace);
        name = text_of(&cs, 2, cs.len() - n);
        assert(cs@.subrange(2, cs@.len() as int) =~= token@.skip(2));
        assert(name@ =~= text::trim_end(token@.skip(2), CharClass::CloseBrace));
    } else {
        name = text_of(&cs, 1, cs.len());
        assert(name@ =~= token@.skip(1));
    }
    if name.as_str().is_empty() {
        return None;
    }
    env.get(name.as_str())
}

/// The name of the variable with the home directory.
pub open spec fn home_name() -> Seq<char> {
    seq!['H', 'O', 'M', 'E']
}

/// The home directory, if it is known.
pub open spec fn home(env: Map<Seq<char>, Seq<char>>) -> Option<Seq<char>> {
    vars::lookup(env, home_name())
}

/// The home directory, empty if it is not known.
pub open spec fn home_or_empty(env: Map<Seq<char>, Seq<char>>) -> Seq<char> {
    match home(env) {
        Some(h) => h,
        None => Seq::<char>::empty(),
    }
}

/// Looks the home directory up.
fn find_home(env: &Vars) -> (r: Option<String>)
    ensures
        match r {
            Some(h) => home(env@) == Some(h@),
            None => home(env@) is None,
        },
{
    proof {
        reveal_strlit("HOME");
        assert("HOME"@ =~= home_name());
    }
    env.get("HOME")
}

// ---------------------------------------------------------------------------------------------
// Forward and back
// ---------------------------------------------------------------------------------------------

/// `cd` alone.
pub open spec fn cd_word() -> Seq<char> {
    seq!['c', 'd']
}

/// `cd` with a target behind it.
pub open spec fn cd_space() -> Seq<char> {
    seq!['c', 'd', ' ']
}

/// The home directory in a command.
pub open spec fn tilde() -> Seq<char> {
    seq!['~']
}

/// A path below the home directory in a command.
pub open spec fn tilde_slash() -> Seq<char> {
    seq!['~', '/']
}

/// The previous directory in a command.
pub open spec fn dash() -> Seq<char> {
    seq!['-']
}

/// A target without the white space and the quotes around it.
pub open spec fn unquoted(target: Seq<char>) -> Seq<char> {
    text::trim(
        text::trim(text::trim(target, CharClass::White), CharClass::DoubleQuote),
        CharClass::SingleQuote,
    )
}

/// Takes off the white space and the quotes around a target.
fn unquote<'a>(target: &'a str) -> (r: &'a str)
    ensures
        r@ == unquoted(target@),
{
    let cs: Vec<char> = chars_of(target);
    assert(cs@.subrange(0, cs@.len() as int) =~= target@);
    let (a, b): (usize, usize) = trim_bounds(&cs, 0, cs.len(), CharClass::White);
    let (c, d): (usize, usize) = trim_bounds(&cs, a, b, CharClass::DoubleQuote);
    let (e, f): (usize, usize) = trim_bounds(&cs, c, d, CharClass::SingleQuote);
    target.substring_char(e, f)
}

/// The path that the target of a `cd` names, from the directory `cwd`; none for the previous
/// directory.
pub open spec fn cd_path(
    target: Seq<char>,
    cwd: Seq<char>,
    env: Map<Seq<char>, Seq<char>>,
) -> Option<Seq<char>> {
    if text::begins(target, tilde_slash()) {
        Some(home_or_empty(env).push('/') + target.skip(2))
    } else if target == tilde() {
        Some(home_or_empty(env))
    } else if target == dash() {
        None
    } else {
        Some(path::join(cwd, target))
    }
}

/// The directory in which a command leaves the shell: home for a bare `cd`, the normalised target
/// of any other `cd` if it exists, and nothing for other commands.
pub open spec fn cd_result(
    cmd: Seq<char>,
    cwd: Seq<char>,
    env: Map<Seq<char>, Seq<char>>,
    disk: fs::Disk,
) -> Option<Seq<char>> {
    let c = text::trim(cmd, CharClass::White);
    if c == cd_word() {
        Some(home_or_empty(env))
    } else if text::begins(c, cd_space()) {
        match cd_path(unquoted(c.skip(3)), cwd, env) {
            Some(p) => if disk.paths.contains(path::normalized(p)) {
                Some(path::normalized(p))
            } else {
                None
            },
            None => None,
        }
    } else {
        None
    }
}

/// Follows a `cd` command from the directory `current_cwd`.
pub fn parse_cd<F: Filesystem + ?Sized>(
    cmd: &str,
    current_cwd: &str,
    env: &Vars,
    fs: &F,
) -> (r: Option<String>)
    ensures
        match r {
            Some(p) => cd_result(cmd@, current_cwd@, env@, fs.disk()) == Some(p@),
            None => cd_result(cmd@, current_cwd@, env@, fs.disk()) is None,
        },
{
    proof {
        reveal_strlit("cd");
        reveal_strlit("cd ");
        reveal_strlit("~");
        reveal_strlit("~/");
        reveal_strlit("-");
        assert("cd"@ =~= cd_word());
        assert("cd "@ =~= cd_space());
        assert("~"@ =~= tilde());
        assert("~/"@ =~= tilde_slash());
        assert("-"@ =~= dash());
    }
    let cs: Vec<char> = chars_of(cmd);
    assert(cs@.subrange(0, cs@.len() as int) =~= cmd@);
    let (a, b): (usize, usize) = trim_bounds(&cs, 0, cs.len(), CharClass::White);
    let c: &str = cmd.substring_char(a, b);
    let base: String = match find_home(env) {
        Some(h) => h,
        None => String::new(),
    };
    assert(base@ =~= home_or_empty(env@));
    if same(c, "cd") {
        return Some(base);
    }
    if !begins_str(c, "cd ") {
        return None;
    }
    let target: &str = unquote(c.substring_char(3, b - a));
    assert(c@.subrange(3, c@.len() as int) =~= c@.skip(3));
    let place: String;
    if begins_str(target, "~/") {
        let mut p: String = base;
        p.push('/');
        let n: usize = target.unicode_len();
        p.append(target.substring_char(2, n));
        assert(target@.subrange(2, target@.len() as int) =~= target@.skip(2));
        place = p;
    } else if same(target, "~") {
        place = base;
    } else if same(target, "-") {
        return None;
    } else {
        place = join_path(current_cwd, target);
    }
    let full: String = normalize_path(place.as_str());
    if fs.path_exists(full.as_str()) {
        Some(full)
    } else {
        None
    }
}

/// The directory from which a `cd` with the target led to `cwd`, where target and result tell it:
/// the target is relative, without `..`, and `cwd` ends in its components.
pub open spec fn undone(target: Seq<char>, cwd: Seq<char>) -> Option<Seq<char>> {
    let t = unquoted(target);
    let tc = path::components(t);
    let rc = path::components(cwd);
    let n = rc.len() - tc.len();
    if t.len() == 0 || t == dash() || t == tilde() || text::begins(t, tilde_slash())
        || path::absolute(t) || tc.contains(path::dotdot()) {
        None
    } else if n > 0 && rc.skip(n) == tc {
        Some(path::render(rc.take(n)))
    } else {
        None
    }
}

/// Tests whether `..` is among the components.
fn has_dotdot(cs: &Vec<String>) -> (r: bool)
    ensures
        r == cs.deep_view().contains(path::dotdot()),
{
    let mut i: usize = 0;
    while i < cs.len()
        invariant
            i <= cs@.len(),
            forall|k: int| 0 <= k < i ==> cs@[k]@ != path::dotdot(),
        decreases cs@.len() - i,
    {
        if is_dotdot(cs[i].as_str()) {
            assert(cs.deep_view()[i as int] == path::dotdot());
            return true;
        }
        i = i + 1;
    }
    assert(forall|k: int| 0 <= k < cs@.len() ==> cs.deep_view()[k] == cs@[k]@);
    false
}

/// Reconstructs the directory before a `cd` from the directory after it.
pub fn undo_cd(target: &str, result_cwd: &str) -> (r: Option<String>)
    ensures
        match r {
            Some(p) => undone(target@, result_cwd@) == Some(p@),
            None => undone(target@, result_cwd@) is None,
        },
{
    proof {
        reveal_strlit("~");
        reveal_strlit("~/");
        reveal_strlit("-");
        assert("~"@ =~= tilde());
        assert("~/"@ =~= tilde_slash());
        assert("-"@ =~= dash());
    }
    let t: &str = unquote(target);
    if t.is_empty() || same(t, "-") || same(t, "~") || begins_str(t, "~/") || is_absolute(t) {
        return None;
    }
    let tc: Vec<String> = components_of(t);
    if has_dotdot(&tc) {
        return None;
    }
    let rc: Vec<String> = components_of(result_cwd);
    if rc.len() <= tc.len() {
        return None;
    }
    let n: usize = rc.len() - tc.len();
    let mut last: Vec<String> = Vec::new();
    let mut i: usize = n;
    while i < rc.len()
        invariant
            n <= i <= rc@.len(),
            last.deep_view() == rc.deep_view().subrange(n as int, i as int),
        decreases rc@.len() - i,
    {
        let ghost before = last.deep_view();
        last.push(rc[i].clone());
        i = i + 1;
        assert(last.deep_view() =~= before.push(rc@[i - 1]@));
        assert(last.deep_view() =~= rc.deep_view().subrange(n as int, i as int));
    }
    assert(last.deep_view() =~= rc.deep_view().skip(n as int));
    if same_list(&last, &tc) {
        let first: Vec<String> = first_components(&rc, n);
        Some(render_of(&first))
    } else {
        None
    }
}

// ---------------------------------------------------------------------------------------------
// Directories in a command
// ---------------------------------------------------------------------------------------------

/// The path of a text `$NAME` or `$NAME/rest`.
pub open spec fn var_path(
    t: Seq<char>,
    base: Seq<char>,
    env: Map<Seq<char>, Seq<char>>,
) -> Option<Seq<char>> {
    let n = text::until(t, CharClass::Slash);
    match token_value(t.take(n), env) {
        Some(v) => Some(path::join(base, v + t.skip(n))),
        None => None,
    }
}

/// The path of a text that stands for itself wherever it is: behind `$`, below home, or from the
/// root.
pub open spec fn plain_path(
    t: Seq<char>,
    base: Seq<char>,
    env: Map<Seq<char>, Seq<char>>,
) -> Option<Seq<char>> {
    if t.len() > 0 && t[0] == '$' {
        var_path(t, base, env)
    } else if t == tilde() {
        home(env)
    } else if text::begins(t, tilde_slash()) {
        match home(env) {
            Some(h) => Some(h + t.skip(1)),
            None => None,
        }
    } else if path::absolute(t) {
        Some(t)
    } else {
        None
    }
}

/// Whether a token looks like a path that is relative to the directory of the command.
pub open spec fn looks_relative(t: Seq<char>) -> bool {
    t.contains('/') || t == path::dotdot() || t == path::dot()
}

/// The path that a token as a whole names.
pub open spec fn word_path(
    t: Seq<char>,
    base: Seq<char>,
    env: Map<Seq<char>, Seq<char>>,
) -> Option<Seq<char>> {
    if (t.len() > 0 && t[0] == '$') || t == tilde() || text::begins(t, tilde_slash())
        || path::absolute(t) {
        plain_path(t, base, env)
    } else if looks_relative(t) {
        Some(path::join(base, t))
    } else {
        None
    }
}

/// The path that a token names behind its first `=`.
pub open spec fn assigned_path(
    t: Seq<char>,
    base: Seq<char>,
    env: Map<Seq<char>, Seq<char>>,
) -> Option<Seq<char>> {
    let i = text::until(t, CharClass::Equals);
    if i < t.len() {
        plain_path(t.skip(i + 1), base, env)
    } else {
        None
    }
}

/// A list with one text more, if there is one.
pub open spec fn with(ps: Seq<Seq<char>>, p: Option<Seq<char>>) -> Seq<Seq<char>> {
    match p {
        Some(t) => ps.push(t),
        None => ps,
    }
}

/// The paths that the tokens of a command name, in their order.
pub open spec fn named_paths(
    ts: Seq<Seq<char>>,
    base: Seq<char>,
    env: Map<Seq<char>, Seq<char>>,
) -> Seq<Seq<char>>
    decreases ts.len(),
{
    if ts.len() == 0 {
        ts
    } else {
        with(
            with(named_paths(ts.drop_last(), base, env), word_path(ts.last(), base, env)),
            assigned_path(ts.last(), base, env),
        )
    }
}

/// The normalised forms of those paths that are directories.
pub open spec fn real_dirs(ps: Seq<Seq<char>>, disk: fs::Disk) -> Seq<Seq<char>>
    decreases ps.len(),
{
    if ps.len() == 0 {
        ps
    } else if disk.dirs.contains(path::normalized(ps.last())) {
        real_dirs(ps.drop_last(), disk).push(path::normalized(ps.last()))
    } else {
        real_dirs(ps.drop_last(), disk)
    }
}

/// The directories that a command speaks of, each once, in normalised form.
pub open spec fn dirs_in(
    cmd: Seq<char>,
    base: Seq<char>,
    env: Map<Seq<char>, Seq<char>>,
    disk: fs::Disk,
) -> Seq<Seq<char>> {
    text::dedup(real_dirs(named_paths(parse::tokens(cmd), base, env), disk))
}

/// Finds the path of a text `$NAME` or `$NAME/rest`.
fn find_var_path(t: &str, base: &str, env: &Vars) -> (r: Option<String>)
    ensures
        match r {
            Some(p) => var_path(t@, base@, env@) == Some(p@),
            None => var_path(t@, base@, env@) is None,
        },
{
    let cs: Vec<char> = chars_of(t);
    assert(cs@.subrange(0, cs@.len() as int) =~= t@);
    let n: usize = count_until(&cs, 0, cs.len(), CharClass::Slash);
    let name: String = text_of(&cs, 0, n);
    assert(name@ =~= t@.take(n as int));
    match resolve_env_token(name.as_str(), env) {
        Some(v) => {
            let mut full: String = v;
            let rest: String = text_of(&cs, n, cs.len());
            assert(rest@ =~= t@.skip(n as int));
            full.append(rest.as_str());
            Some(join_path(base, full.as_str()))
        },
        None => None,
    }
}

/// Finds the path of a text that stands for itself wherever it is.
fn find_plain_path(t: &str, base: &str, env: &Vars) -> (r: Option<String>)
    ensures
        match r {
            Some(p) => plain_path(t@, base@, env@) == Some(p@),
            None => plain_path(t@, base@, env@) is None,
        },
{
    proof {
        reveal_strlit("~");
        reveal_strlit("~/");
        assert("~"@ =~= tilde());
        assert("~/"@ =~= tilde_slash());
    }
    let cs: Vec<char> = chars_of(t);
    if cs.len() > 0 && cs[0] == '$' {
        find_var_path(t, base, env)
    } else if same(t, "~") {
        find_home(env)
    } else if begins_str(t, "~/") {
        match find_home(env) {
            Some(h) => {
                let mut full: String = h;
                let rest: String = text_of(&cs, 1, cs.len());
                assert(rest@ =~= t@.skip(1));
                full.append(rest.as_str());
                Some(full)
            },
            None => None,
        }
    } else if cs.len() > 0 && cs[0] == '/' {
        Some(t.to_owned())
    } else {
        None
    }
}

/// Finds the path that a token as a whole names.
fn find_word_path(t: &str, base: &str, env: &Vars) -> (r: Option<String>)
    ensures
        match r {
            Some(p) => word_path(t@, base@, env@) == Some(p@),
            None => word_path(t@, base@, env@) is None,
        },
{
    proof {
        reveal_strlit("~");
        reveal_strlit("~/");
        reveal_strlit(".");
        reveal_strlit("..");
        assert("~"@ =~= tilde());
        assert("~/"@ =~= tilde_slash());
        assert("."@ =~= path::dot());
        assert(".."@ =~= path::dotdot());
    }
    let cs: Vec<char> = chars_of(t);
    if (cs.len() > 0 && (cs[0] == '$' || cs[0] == '/')) || same(t, "~") || begins_str(t, "~/") {
        return find_plain_path(t, base, env);
    }
    assert(cs@.subrange(0, cs@.len() as int) =~= t@);
    let slash: usize = count_until(&cs, 0, cs.len(), CharClass::Slash);
    proof {
        text::lemma_until_run(t@, CharClass::Slash);
        if slash < cs@.len() {
            assert(t@[slash as int] == '/');
        } else if t@.contains('/') {
            let k = choose|k: int| 0 <= k < t@.len() && t@[k] == '/';
            assert(CharClass::Slash.has(t@[k]));
        }
    }
    if slash < cs.len() || same(t, "..") || same(t, ".") {
        Some(join_path(base, t))
    } else {
        None
    }
}

/// Finds the path that a token names behind its first `=`.
fn find_assigned_path(t: &str, base: &str, env: &Vars) -> (r: Option<String>)
    ensures
        match r {
            Some(p) => assigned_path(t@, base@, env@) == Some(p@),
            None => assigned_path(t@, base@, env@) is None,
        },
{
    let cs: Vec<char> = chars_of(t);
    assert(cs@.subrange(0, cs@.len() as int) =~= t@);
    let i: usize = count_until(&cs, 0, cs.len(), CharClass::Equals);
    if i >= cs.len() {
        return None;
    }
    let after: String = text_of(&cs, i + 1, cs.len());
    assert(after@ =~= t@.skip(i + 1));
    find_plain_path(after.as_str(), base, env)
}

/// Adds the normalised form of a path to a list, if it is a directory and not there yet.
fn add_dir<F: Filesystem + ?Sized>(
    out: &mut Vec<String>,
    raw: Option<String>,
    fs: &F,
    Ghost(ps): Ghost<Seq<Seq<char>>>,
)
    requires
        old(out).deep_view() == text::dedup(real_dirs(ps, fs.disk())),
    ensures
        final(out).deep_view() == text::dedup(
            real_dirs(
                with(
                    ps,
                    match raw {
                        Some(t) => Some(t@),
                        None => None,
                    },
                ),
                fs.disk(),
            ),
        ),
{
    if let Some(t) = raw {
        let p: String = normalize_path(t.as_str());
        assert(ps.push(t@).drop_last() =~= ps);
        if fs.is_dir(p.as_str()) {
            let ghost ds = real_dirs(ps, fs.disk());
            assert(ds.push(p@).drop_last() =~= ds);
            push_new(out, p);
        }
    }
}

/// The directories that a command speaks of: absolute and relative paths, `~`, `$VAR`,
/// `$VAR/rest`, `KEY=/path`, `KEY=$VAR`.
pub fn extract_dir_candidates<F: Filesystem + ?Sized>(
    cmd: &str,
    base_cwd: &str,
    env: &Vars,
    fs: &F,
) -> (r: Vec<String>)
    ensures
        r.deep_view() == dirs_in(cmd@, base_cwd@, env@, fs.disk()),
{
    let ts: Vec<String> = tokenize(cmd);
    let ghost all = ts.deep_view();
    let mut out: Vec<String> = Vec::new();
    let mut i: usize = 0;
    assert(out.deep_view() =~= text::dedup(
        real_dirs(named_paths(all.take(0), base_cwd@, env@), fs.disk()),
    ));
    while i < ts.len()
        invariant
            i <= ts@.len(),
            all == ts.deep_view(),
            out.deep_view() == text::dedup(
                real_dirs(named_paths(all.take(i as int), base_cwd@, env@), fs.disk()),
            ),
        decreases ts@.len() - i,
    {
        let ghost so_far = named_paths(all.take(i as int), base_cwd@, env@);
        assert(all.take(i + 1).drop_last() =~= all.take(i as int));
        assert(all.take(i + 1).last() == ts@[i as int]@);
        let word: Option<String> = find_word_path(ts[i].as_str(), base_cwd, env);
        let ghost more = with(so_far, word_path(ts@[i as int]@, base_cwd@, env@));
        add_dir(&mut out, word, fs, Ghost(so_far));
        let assigned: Option<String> = find_assigned_path(ts[i].as_str(), base_cwd, env);
        add_dir(&mut out, assigned, fs, Ghost(more));
        i = i + 1;
    }
    assert(all.take(i as int) =~= all);
    out
}

// ---------------------------------------------------------------------------------------------
// The vote
// ---------------------------------------------------------------------------------------------

/// How many of the paths exist when read in the directory `cwd`.
pub open spec fn score(cwd: Seq<char>, rels: Seq<Seq<char>>, disk: fs::Disk) -> int
    decreases rels.len(),
{
    if rels.len() == 0 {
        0
    } else {
        score(cwd, rels.drop_last(), disk) + if fs::present_at(rels.last(), cwd, disk) {
            1int
        } else {
            0int
        }
    }
}

/// The first of the directories with the highest score.
pub open spec fn best_index(
    candidates: Seq<Seq<char>>,
    rels: Seq<Seq<char>>,
    disk: fs::Disk,
) -> int
    decreases candidates.len(),
{
    if candidates.len() <= 1 {
        0
    } else {
        let b = best_index(candidates.drop_last(), rels, disk);
        if score(candidates.last(), rels, disk) > score(candidates[b], rels, disk) {
            candidates.len() - 1
        } else {
            b
        }
    }
}

/// The directory in which most of the paths exist; the first one in a tie.
pub open spec fn best(
    candidates: Seq<Seq<char>>,
    rels: Seq<Seq<char>>,
    disk: fs::Disk,
) -> Seq<char> {
    candidates[best_index(candidates, rels, disk)]
}

/// A score lies between nothing and all.
pub proof fn lemma_score(cwd: Seq<char>, rels: Seq<Seq<char>>, disk: fs::Disk)
    ensures
        0 <= score(cwd, rels, disk) <= rels.len(),
    decreases rels.len(),
{
    if rels.len() > 0 {
        lemma_score(cwd, rels.drop_last(), disk);
    }
}

/// The directory chosen has a score that none exceeds and none before it reaches.
pub proof fn law_best_wins(candidates: Seq<Seq<char>>, rels: Seq<Seq<char>>, disk: fs::Disk)
    requires
        candidates.len() > 0,
    ensures
        0 <= best_index(candidates, rels, disk) < candidates.len(),
        forall|k: int|
            0 <= k < candidates.len() ==> score(#[trigger] candidates[k], rels, disk) <= score(
                best(candidates, rels, disk),
                rels,
                disk,
            ),
        forall|k: int|
            0 <= k < best_index(candidates, rels, disk) ==> score(
                #[trigger] candidates[k],
                rels,
                disk,
            ) < score(best(candidates, rels, disk), rels, disk),
    decreases candidates.len(),
{
    if candidates.len() > 1 {
        let d = candidates.drop_last();
        law_best_wins(d, rels, disk);
        assert forall|k: int| 0 <= k < candidates.len() implies score(
            #[trigger] candidates[k],
            rels,
            disk,
        ) <= score(best(candidates, rels, disk), rels, disk) by {
            if k < d.len() {
                assert(d[k] == candidates[k]);
            }
        }
        assert forall|k: int| 0 <= k < best_index(candidates, rels, disk) implies score(
            #[trigger] candidates[k],
            rels,
            disk,
        ) < score(best(candidates, rels, disk), rels, disk) by {
            assert(d[k] == candidates[k]);
        }
    }
}

/// The law above singles one directory out.
pub proof fn lemma_best_unique(
    candidates: Seq<Seq<char>>,
    rels: Seq<Seq<char>>,
    disk: fs::Disk,
    i: int,
)
    requires
        0 <= i < candidates.len(),
        forall|k: int|
            0 <= k < candidates.len() ==> score(#[trigger] candidates[k], rels, disk) <= score(
                candidates[i],
                rels,
                disk,
            ),
        forall|k: int|
            0 <= k < i ==> score(#[trigger] candidates[k], rels, disk) < score(
                candidates[i],
                rels,
                disk,
            ),
    ensures
        best_index(candidates, rels, disk) == i,
{
    law_best_wins(candidates, rels, disk);
    let b = best_index(candidates, rels, disk);
    assert(score(candidates[i], rels, disk) <= score(candidates[b], rels, disk));
    assert(score(candidates[b], rels, disk) <= score(candidates[i], rels, disk));
}

/// Counts the paths that exist when read in the directory `cwd`.
fn count_present<F: Filesystem + ?Sized>(cwd: &str, rel_paths: &[String], fs: &F) -> (r: usize)
    ensures
        r == score(cwd@, rel_paths.deep_view(), fs.disk()),
        r <= rel_paths@.len(),
{
    let ghost rels = rel_paths.deep_view();
    let mut n: usize = 0;
    let mut i: usize = 0;
    while i < rel_paths.len()
        invariant
            i <= rel_paths@.len(),
            rels == rel_paths.deep_view(),
            n == score(cwd@, rels.take(i as int), fs.disk()),
            n <= i,
        decreases rel_paths@.len() - i,
    {
        assert(rels.take(i + 1).drop_last() =~= rels.take(i as int));
        assert(rels.take(i + 1).last() == rel_paths@[i as int]@);
        if exists_at(rel_paths[i].as_str(), cwd, fs) {
            n = n + 1;
        }
        i = i + 1;
    }
    assert(rels.take(i as int) =~= rels);
    n
}

/// Picks the directory in which most of the relative paths exist; the first one in a tie. It ends
/// early where all of them exist.
pub fn best_candidate<F: Filesystem + ?Sized>(
    candidates: &[String],
    rel_paths: &[String],
    fs: &F,
) -> (r: String)
    requires
        candidates@.len() > 0,
    ensures
        r@ == best(candidates.deep_view(), rel_paths.deep_view(), fs.disk()),
{
    let ghost cands = candidates.deep_view();
    let ghost rels = rel_paths.deep_view();
    let ghost disk = fs.disk();
    let perfect: usize = rel_paths.len();
    let mut chosen: usize = 0;
    let mut high: usize = 0;
    let mut i: usize = 0;
    while i < candidates.len()
        invariant
            i <= candidates@.len(),
            candidates@.len() > 0,
            cands == candidates.deep_view(),
            rels == rel_paths.deep_view(),
            disk == fs.disk(),
            perfect == rel_paths@.len(),
            chosen < candidates@.len(),
            i > 0 ==> chosen < i && high == score(cands[chosen as int], rels, disk),
            i == 0 ==> high == 0 && chosen == 0,
            high < perfect || i == 0,
            forall|k: int| 0 <= k < i ==> score(#[trigger] cands[k], rels, disk) <= high,
            forall|k: int| 0 <= k < chosen ==> score(#[trigger] cands[k], rels, disk) < high,
        decreases candidates@.len() - i,
    {
        assert(cands[i as int] == candidates@[i as int]@);
        let n: usize = count_present(candidates[i].as_str(), rel_paths, fs);
        if n == perfect {
            proof {
                assert forall|k: int| 0 <= k < cands.len() implies score(
                    #[trigger] cands[k],
                    rels,
                    disk,
                ) <= n by {
                    lemma_score(cands[k], rels, disk);
                }
                lemma_best_unique(cands, rels, disk, i as int);
            }
            return candidates[i].clone();
        }
        if n > high {
            high = n;
            chosen = i;
        } else if i == 0 {
            high = n;
        }
        i = i + 1;
    }
    proof {
        lemma_best_unique(cands, rels, disk, chosen as int);
        assert(cands[chosen as int] == candidates@[chosen as int]@);
    }
    candidates[chosen].clone()
}

// ---------------------------------------------------------------------------------------------
// Laws
// ---------------------------------------------------------------------------------------------

/// Whether a target, once unquoted, is a path that `cd` follows down from where it is: relative,
/// without `..`, not behind a `.`, and none of the special targets.
pub open spec fn leads_down(t: Seq<char>) -> bool {
    &&& t.len() > 0
    &&& t != dash()
    &&& t != tilde()
    &&& !text::begins(t, tilde_slash())
    &&& !path::absolute(t)
    &&& !path::components(t).contains(path::dotdot())
    &&& path::components(t).len() > 0 ==> path::components(t)[0] != path::dot()
}

/// What leads to the directory is found where the components of the result are known.
proof fn lemma_undone(target: Seq<char>, cwd: Seq<char>, base: Seq<Seq<char>>)
    requires
        leads_down(unquoted(target)),
        base.len() > 0,
        path::components(cwd) == base + path::components(unquoted(target)),
    ensures
        undone(target, cwd) == Some(path::render(base)),
        path::components(path::render(base)) == base,
{
    let tc = path::components(unquoted(target));
    let rc = path::components(cwd);
    let n = base.len() as int;
    assert(rc.skip(n) =~= tc);
    assert(rc.take(n) =~= base);
    path::lemma_components_well_formed(cwd);
    assert(path::well_formed(base)) by {
        assert forall|i: int| 0 <= i < base.len() implies path::is_name(#[trigger] base[i]) || (i
            == 0 && (base[i] == path::root() || base[i] == path::dot())) by {
            assert(base[i] == rc[i]);
        }
    }
    path::law_spelling_reads_back(base);
}

/// Undoing a `cd` gives the directory that it was given in: for every target that leads down, and
/// every directory with a component, whatever the spelling of the directory in which it ended.
pub proof fn law_undo_gives_directory_before(base: Seq<char>, target: Seq<char>, cwd: Seq<char>)
    requires
        leads_down(unquoted(target)),
        path::components(base).len() > 0,
        path::components(cwd) == path::components(path::join(base, unquoted(target))),
    ensures
        undone(target, cwd) matches Some(p) && path::components(p) == path::components(base),
{
    let t = unquoted(target);
    path::lemma_small_components();
    if base.len() == 0 {
        assert(base =~= Seq::<char>::empty());
    }
    path::law_join_reads_both(base, t);
    lemma_undone(target, cwd, path::components(base));
}

/// Following a `cd` from the directory that undoing it gave leads to where it was undone from.
pub proof fn law_undone_directory_leads_there(target: Seq<char>, cwd: Seq<char>)
    requires
        undone(target, cwd) is Some,
    ensures
        path::components(path::join(undone(target, cwd)->0, unquoted(target)))
            == path::components(cwd),
        path::absolute(undone(target, cwd)->0) == path::absolute(cwd),
{
    let t = unquoted(target);
    let tc = path::components(t);
    let rc = path::components(cwd);
    let n = rc.len() - tc.len();
    let first = rc.take(n);
    path::lemma_components_well_formed(cwd);
    assert(path::well_formed(first)) by {
        assert forall|i: int| 0 <= i < first.len() implies path::is_name(#[trigger] first[i]) || (i
            == 0 && (first[i] == path::root() || first[i] == path::dot())) by {
            assert(first[i] == rc[i]);
        }
    }
    path::law_spelling_reads_back(first);
    assert(first[0] == rc[0]);
    path::law_join_reads_both(path::render(first), t);
    if tc.len() > 0 {
        assert(tc[0] == rc[n]);
        assert(path::is_name(rc[n]));
    }
    assert(first + tc =~= rc);
}

/// Undoing a `cd` that was followed gives the directory that it was followed from: for every
/// directory in normal form, and every target that leads down and is written without quotes.
pub proof fn law_undo_undoes_cd(
    cwd: Seq<char>,
    target: Seq<char>,
    env: Map<Seq<char>, Seq<char>>,
    disk: fs::Disk,
)
    requires
        path::normal(path::components(cwd)),
        path::components(cwd).len() > 0,
        unquoted(target) == target,
        leads_down(target),
        cd_result(cd_space() + target, cwd, env, disk) is Some,
    ensures
        undone(target, cd_result(cd_space() + target, cwd, env, disk)->0) matches Some(p)
            && path::components(p) == path::components(cwd),
{
    let white = CharClass::White;
    let cmd = cd_space() + target;
    let a = text::trim(target, white);
    let b = text::trim(a, CharClass::DoubleQuote);
    text::lemma_trim(target, white);
    text::lemma_trim(a, CharClass::DoubleQuote);
    text::lemma_trim(b, CharClass::SingleQuote);
    text::lemma_trailing_run(target, white);
    assert(cmd[0] == 'c');
    text::lemma_leading(cmd, white, 0);
    assert(text::trim_start(cmd, white) =~= cmd);
    assert(cmd.last() == target.last());
    text::lemma_trailing(cmd, white, 0);
    assert(text::trim(cmd, white) =~= cmd);
    assert(cmd.len() != cd_word().len());
    assert(cmd.subrange(0, 3) =~= cd_space());
    assert(cmd.skip(3) =~= target);
    let place = path::join(cwd, target);
    let bc = path::components(cwd);
    let tc = path::components(target);
    path::lemma_small_components();
    if cwd.len() == 0 {
        assert(cwd =~= Seq::<char>::empty());
    }
    path::law_join_reads_both(cwd, target);
    path::lemma_components_well_formed(place);
    path::lemma_components_well_formed(target);
    let pc = path::components(place);
    assert(pc == bc + tc);
    assert forall|i: int, j: int|
        0 <= j < i < pc.len() && #[trigger] pc[i] == path::dotdot() implies #[trigger] pc[j]
        == path::dotdot() by {
        if i < bc.len() {
            assert(pc[i] == bc[i]);
            assert(pc[j] == bc[j]);
        } else {
            assert(pc[i] == tc[i - bc.len()]);
        }
    }
    assert(pc[0] == bc[0]);
    path::lemma_walk_normal(pc);
    path::law_normalized_is_normal(place);
    lemma_undone(target, path::normalized(place), bc);
}

/// What [`real_dirs`] lists are directories, in normalised form.
proof fn lemma_real_dirs(ps: Seq<Seq<char>>, disk: fs::Disk, k: int)
    requires
        0 <= k < real_dirs(ps, disk).len(),
    ensures
        disk.dirs.contains(real_dirs(ps, disk)[k]),
        exists|j: int|
            0 <= j < ps.len() && real_dirs(ps, disk)[k] == path::normalized(#[trigger] ps[j]),
    decreases ps.len(),
{
    let d = ps.drop_last();
    if disk.dirs.contains(path::normalized(ps.last())) && k == real_dirs(d, disk).len() {
        assert(real_dirs(ps, disk)[k] == path::normalized(ps[ps.len() - 1]));
    } else {
        lemma_real_dirs(d, disk, k);
        let j = choose|j: int|
            0 <= j < d.len() && real_dirs(d, disk)[k] == path::normalized(#[trigger] d[j]);
        assert(real_dirs(ps, disk)[k] == path::normalized(ps[j]));
    }
}

/// The directories that a command speaks of are distinct, they are directories, and they are in
/// normalised form.
pub proof fn law_dirs_are_directories(
    cmd: Seq<char>,
    base: Seq<char>,
    env: Map<Seq<char>, Seq<char>>,
    disk: fs::Disk,
)
    ensures
        dirs_in(cmd, base, env, disk).no_duplicates(),
        forall|k: int|
            0 <= k < dirs_in(cmd, base, env, disk).len() ==> disk.dirs.contains(
                #[trigger] dirs_in(cmd, base, env, disk)[k],
            ) && path::normalized(dirs_in(cmd, base, env, disk)[k]) == dirs_in(
                cmd,
                base,
                env,
                disk,
            )[k],
{
    let named = named_paths(parse::tokens(cmd), base, env);
    let all = real_dirs(named, disk);
    let ds = dirs_in(cmd, base, env, disk);
    text::lemma_dedup(all);
    assert forall|k: int| 0 <= k < ds.len() implies disk.dirs.contains(#[trigger] ds[k])
        && path::normalized(ds[k]) == ds[k] by {
        assert(ds.contains(ds[k]));
        let i = choose|i: int| 0 <= i < all.len() && all[i] == ds[k];
        lemma_real_dirs(named, disk, i);
        let j = choose|j: int|
            0 <= j < named.len() && all[i] == path::normalized(#[trigger] named[j]);
        path::law_normalize_idempotent(named[j]);
    }
}

/// Whether the home directory is an absolute path, or not known.
pub open spec fn home_is_absolute(env: Map<Seq<char>, Seq<char>>) -> bool {
    home(env) matches Some(h) ==> path::absolute(h)
}

proof fn lemma_plain_path(t: Seq<char>, base: Seq<char>, env: Map<Seq<char>, Seq<char>>)
    requires
        path::absolute(base),
        home_is_absolute(env),
    ensures
        plain_path(t, base, env) matches Some(p) ==> path::absolute(p),
{
    match plain_path(t, base, env) {
        Some(p) => {
            if t.len() > 0 && t[0] == '$' {
                let n = text::until(t, CharClass::Slash);
                let v = token_value(t.take(n), env)->0 + t.skip(n);
                if !path::absolute(v) {
                    path::lemma_join_components(base, v);
                }
            } else if t != tilde() && text::begins(t, tilde_slash()) {
                assert(p[0] == (home(env)->0)[0]);
            }
        },
        None => {},
    }
}

proof fn lemma_named_paths(
    ts: Seq<Seq<char>>,
    base: Seq<char>,
    env: Map<Seq<char>, Seq<char>>,
    k: int,
)
    requires
        path::absolute(base),
        home_is_absolute(env),
        0 <= k < named_paths(ts, base, env).len(),
    ensures
        path::absolute(named_paths(ts, base, env)[k]),
    decreases ts.len(),
{
    let d = ts.drop_last();
    let t = ts.last();
    let first = named_paths(d, base, env);
    let more = with(first, word_path(t, base, env));
    lemma_plain_path(t, base, env);
    let i = text::until(t, CharClass::Equals);
    lemma_plain_path(t.skip(i + 1), base, env);
    if !path::absolute(t) {
        path::lemma_join_components(base, t);
    }
    if k < first.len() {
        lemma_named_paths(d, base, env, k);
        assert(named_paths(ts, base, env)[k] == first[k]);
    } else if k < more.len() {
        assert(named_paths(ts, base, env)[k] == more[k]);
    }
}

/// The directories that a command speaks of are absolute, if the directory of the command is, and
/// the home directory where it is known.
pub proof fn law_dirs_are_absolute(
    cmd: Seq<char>,
    base: Seq<char>,
    env: Map<Seq<char>, Seq<char>>,
    disk: fs::Disk,
    k: int,
)
    requires
        path::absolute(base),
        home_is_absolute(env),
        0 <= k < dirs_in(cmd, base, env, disk).len(),
    ensures
        path::absolute(dirs_in(cmd, base, env, disk)[k]),
{
    let named = named_paths(parse::tokens(cmd), base, env);
    let all = real_dirs(named, disk);
    let ds = dirs_in(cmd, base, env, disk);
    text::lemma_dedup(all);
    assert(ds.contains(ds[k]));
    let i = choose|i: int| 0 <= i < all.len() && all[i] == ds[k];
    lemma_real_dirs(named, disk, i);
    let j = choose|j: int| 0 <= j < named.len() && all[i] == path::normalized(#[trigger] named[j]);
    lemma_named_paths(parse::tokens(cmd), base, env, j);
    path::law_normalized_is_normal(named[j]);
}

// ---------------------------------------------------------------------------------------------
// What the operations give
// ---------------------------------------------------------------------------------------------

/// A token `$NAME` or `${NAME}` has the value of the variable; a `$` alone, empty braces and a token
/// without `$` have none. All braces at the end are taken off.
pub proof fn law_token_names_variable(
    token: Seq<char>,
    name: Seq<char>,
    braces: Seq<char>,
    env: Map<Seq<char>, Seq<char>>,
)
    requires
        forall|i: int| 0 <= i < braces.len() ==> #[trigger] braces[i] == '}',
    ensures
        token.len() == 0 || token[0] != '$' ==> token_value(token, env) is None,
        token_value(seq!['$'], env) is None,
        token_value(seq!['$', '{'] + braces, env) is None,
        name.len() > 0 && name[0] != '{' ==> token_value(seq!['$'] + name, env) == vars::lookup(
            env,
            name,
        ),
        name.len() > 0 && name.last() != '}' ==> token_value(seq!['$', '{'] + name + braces, env)
            == vars::lookup(env, name),
{
    let close = CharClass::CloseBrace;
    assert(seq!['$'][0] == '$');
    assert(seq!['$'].skip(1) =~= Seq::<char>::empty());
    let t = seq!['$', '{'] + braces;
    assert(t[0] == '$' && t[1] == '{');
    assert(t.skip(2) =~= braces);
    text::lemma_trailing(braces, close, braces.len() as int);
    if name.len() > 0 && name[0] != '{' {
        let u = seq!['$'] + name;
        assert(u[0] == '$' && u[1] == name[0]);
        assert(u.skip(1) =~= name);
    }
    if name.len() > 0 && name.last() != '}' {
        let u = seq!['$', '{'] + name + braces;
        let v = name + braces;
        assert(u[0] == '$' && u[1] == '{');
        assert(u.skip(2) =~= v);
        assert forall|i: int| v.len() - braces.len() <= i < v.len() implies close.has(v[i]) by {
            assert(v[i] == braces[i - name.len()]);
        }
        assert(v[v.len() - braces.len() - 1] == name.last());
        text::lemma_trailing(v, close, braces.len() as int);
        assert(v.take(name.len() as int) =~= name);
    }
}

/// Whether a text is made of one character.
pub open spec fn made_of(s: Seq<char>, c: char) -> bool {
    forall|i: int| 0 <= i < s.len() ==> #[trigger] s[i] == c
}

/// Whether a text neither begins nor ends with a character.
pub open spec fn free_at_ends(s: Seq<char>, c: char) -> bool {
    s.len() > 0 ==> s[0] != c && s.last() != c
}

proof fn lemma_trim_of(s: Seq<char>, a: Seq<char>, m: Seq<char>, b: Seq<char>, class: CharClass)
    requires
        s == a + m + b,
        forall|i: int| 0 <= i < a.len() ==> class.has(#[trigger] a[i]),
        forall|i: int| 0 <= i < b.len() ==> class.has(#[trigger] b[i]),
        m.len() > 0,
        !class.has(m[0]),
        !class.has(m.last()),
    ensures
        text::trim(s, class) == m,
{
    let n = a.len() as int;
    assert(s[n] == m[0]);
    assert(forall|i: int| 0 <= i < n ==> s[i] == a[i]);
    text::lemma_leading(s, class, n);
    let t = text::trim_start(s, class);
    assert(t =~= m + b);
    assert(t[t.len() - b.len() - 1] == m.last());
    assert forall|i: int| t.len() - b.len() <= i < t.len() implies class.has(t[i]) by {
        assert(t[i] == b[i - m.len()]);
    }
    text::lemma_trailing(t, class, b.len() as int);
    assert(t.take(m.len() as int) =~= m);
}

/// The white space around a target is taken off, then the double quotes, then the single ones.
pub proof fn law_quotes_around_target_are_taken_off(
    w1: Seq<char>,
    d1: Seq<char>,
    s1: Seq<char>,
    t: Seq<char>,
    s2: Seq<char>,
    d2: Seq<char>,
    w2: Seq<char>,
)
    requires
        forall|i: int| 0 <= i < w1.len() ==> text::white_space(#[trigger] w1[i]),
        forall|i: int| 0 <= i < w2.len() ==> text::white_space(#[trigger] w2[i]),
        made_of(d1, '"'),
        made_of(d2, '"'),
        made_of(s1, '\''),
        made_of(s2, '\''),
        t.len() > 0,
        free_at_ends(t, '\''),
        free_at_ends(s1 + t + s2, '"'),
        !text::white_space((d1 + (s1 + t + s2) + d2)[0]),
        !text::white_space((d1 + (s1 + t + s2) + d2).last()),
    ensures
        unquoted(w1 + (d1 + (s1 + t + s2) + d2) + w2) == t,
{
    let inner = s1 + t + s2;
    let mid = d1 + inner + d2;
    let whole = w1 + mid + w2;
    assert forall|i: int| 0 <= i < w1.len() implies CharClass::White.has(#[trigger] w1[i]) by {
        assert(text::white_space(w1[i]));
    }
    assert forall|i: int| 0 <= i < w2.len() implies CharClass::White.has(#[trigger] w2[i]) by {
        assert(text::white_space(w2[i]));
    }
    lemma_trim_of(whole, w1, mid, w2, CharClass::White);
    lemma_trim_of(mid, d1, inner, d2, CharClass::DoubleQuote);
    lemma_trim_of(inner, s1, t, s2, CharClass::SingleQuote);
}

proof fn lemma_trim_all(s: Seq<char>, class: CharClass)
    requires
        forall|i: int| 0 <= i < s.len() ==> class.has(#[trigger] s[i]),
    ensures
        text::trim(s, class).len() == 0,
{
    text::lemma_leading(s, class, s.len() as int);
}

/// Nothing is left of a target that is nothing but white space with quotes in it, the double ones
/// around the single ones.
pub proof fn law_quotes_alone_leave_nothing(
    w1: Seq<char>,
    d1: Seq<char>,
    s1: Seq<char>,
    d2: Seq<char>,
    w2: Seq<char>,
)
    requires
        forall|i: int| 0 <= i < w1.len() ==> text::white_space(#[trigger] w1[i]),
        forall|i: int| 0 <= i < w2.len() ==> text::white_space(#[trigger] w2[i]),
        made_of(d1, '"'),
        made_of(d2, '"'),
        made_of(s1, '\''),
    ensures
        unquoted(w1 + (d1 + s1 + d2) + w2).len() == 0,
{
    let white = CharClass::White;
    let double = CharClass::DoubleQuote;
    let single = CharClass::SingleQuote;
    let mid = d1 + s1 + d2;
    let whole = w1 + mid + w2;
    let none = Seq::<char>::empty();
    lemma_trim_all(none, double);
    lemma_trim_all(none, single);
    assert forall|i: int| 0 <= i < w1.len() implies white.has(#[trigger] w1[i]) by {
        assert(text::white_space(w1[i]));
    }
    assert forall|i: int| 0 <= i < w2.len() implies white.has(#[trigger] w2[i]) by {
        assert(text::white_space(w2[i]));
    }
    assert forall|i: int| 0 <= i < mid.len() implies #[trigger] mid[i] == '"' || mid[i] == '\'' by {
        if i < d1.len() {
            assert(mid[i] == d1[i]);
        } else if i < d1.len() + s1.len() {
            assert(mid[i] == s1[i - d1.len()]);
        } else {
            assert(mid[i] == d2[i - d1.len() - s1.len()]);
        }
    }
    if mid.len() == 0 {
        assert forall|i: int| 0 <= i < whole.len() implies white.has(#[trigger] whole[i]) by {
            if i < w1.len() {
                assert(whole[i] == w1[i]);
            } else {
                assert(whole[i] == w2[i - w1.len()]);
            }
        }
        lemma_trim_all(whole, white);
        assert(text::trim(whole, white) =~= none);
        assert(text::trim(none, double) =~= none);
    } else {
        assert(mid[0] == '"' || mid[0] == '\'');
        assert(mid[mid.len() - 1] == '"' || mid[mid.len() - 1] == '\'');
        lemma_trim_of(whole, w1, mid, w2, white);
        if s1.len() > 0 {
            assert(s1[0] == '\'' && s1[s1.len() - 1] == '\'');
            lemma_trim_of(mid, d1, s1, d2, double);
            lemma_trim_all(s1, single);
        } else {
            assert forall|i: int| 0 <= i < mid.len() implies double.has(#[trigger] mid[i]) by {
                if i < d1.len() {
                    assert(mid[i] == d1[i]);
                } else {
                    assert(mid[i] == d2[i - d1.len()]);
                }
            }
            lemma_trim_all(mid, double);
            assert(text::trim(mid, double) =~= none);
        }
    }
}

/// Where nothing but white space and quotes is left of a target, it is empty.
pub proof fn law_empty_target(target: Seq<char>)
    requires
        unquoted(target).len() == 0,
    ensures
        forall|i: int|
            0 <= i < target.len() ==> text::white_space(#[trigger] target[i]) || target[i] == '"'
                || target[i] == '\'',
{
    let a = text::trim(target, CharClass::White);
    let b = text::trim(a, CharClass::DoubleQuote);
    lemma_trim_members(target, CharClass::White);
    lemma_trim_members(a, CharClass::DoubleQuote);
    lemma_trim_members(b, CharClass::SingleQuote);
    assert forall|i: int| 0 <= i < target.len() implies text::white_space(#[trigger] target[i])
        || target[i] == '"' || target[i] == '\'' by {
        let c = target[i];
        if !text::white_space(c) && c != '"' && c != '\'' {
            assert(target.contains(c));
            assert(a.contains(c));
            assert(b.contains(c));
            assert(unquoted(target).contains(c));
        }
    }
}

proof fn lemma_trim_members(s: Seq<char>, class: CharClass)
    ensures
        forall|c: char|
            s.contains(c) && !class.has(c) ==> #[trigger] text::trim(s, class).contains(c),
{
    let t = text::trim(s, class);
    text::law_trim_leaves_the_middle(s, class);
    let (a, b) = choose|a: Seq<char>, b: Seq<char>|
        s == #[trigger] (a + t + b) && (forall|i: int|
            0 <= i < a.len() ==> class.has(#[trigger] a[i])) && (forall|i: int|
            0 <= i < b.len() ==> class.has(#[trigger] b[i]));
    assert forall|c: char| s.contains(c) && !class.has(c) implies #[trigger] t.contains(c) by {
        let i = choose|i: int| 0 <= i < s.len() && s[i] == c;
        if i < a.len() {
            assert(a[i] == c);
        } else if i < a.len() + t.len() {
            assert(t[i - a.len()] == c);
        } else {
            assert(b[i - a.len() - t.len()] == c);
        }
    }
}

/// The value of `HOME`, empty where it is not set.
pub open spec fn home_text(env: Map<Seq<char>, Seq<char>>) -> Seq<char> {
    match vars::lookup(env, seq!['H', 'O', 'M', 'E']) {
        Some(h) => h,
        None => Seq::<char>::empty(),
    }
}

/// Where a command leaves the shell: a bare `cd` at home; a `cd` with a target at the target, from
/// home behind `~`, from the present directory otherwise, normalised, if that exists; `cd -` and
/// all other commands nowhere that is known.
#[verifier::spinoff_prover]
pub proof fn law_cd_leads_to_target(
    cmd: Seq<char>,
    rest: Seq<char>,
    cwd: Seq<char>,
    env: Map<Seq<char>, Seq<char>>,
    disk: fs::Disk,
)
    ensures
        ({
            let c = text::trim(cmd, CharClass::White);
            let t = unquoted(rest);
            let place = if t == seq!['~'] {
                home_text(env)
            } else if t.len() >= 2 && t[0] == '~' && t[1] == '/' {
                home_text(env) + t.skip(1)
            } else {
                path::join(cwd, t)
            };
            let there = path::normalized(place);
            let result = cd_result(cmd, cwd, env, disk);
            &&& c == seq!['c', 'd'] ==> result == Some(home_text(env))
            &&& c != seq!['c', 'd'] && !seq!['c', 'd', ' '].is_prefix_of(c) ==> result is None
            &&& c == seq!['c', 'd', ' '] + rest && t == seq!['-'] ==> result is None
            &&& c == seq!['c', 'd', ' '] + rest && t != seq!['-'] && disk.paths.contains(there)
                ==> result == Some(there)
            &&& c == seq!['c', 'd', ' '] + rest && t != seq!['-'] && !disk.paths.contains(there)
                ==> result is None
        }),
{
    let c = text::trim(cmd, CharClass::White);
    let t = unquoted(rest);
    let h = home_text(env);
    assert(home_name() =~= seq!['H', 'O', 'M', 'E']);
    assert(h == home_or_empty(env));
    assert(cd_word() =~= seq!['c', 'd']);
    assert(cd_space() =~= seq!['c', 'd', ' ']);
    assert(tilde() =~= seq!['~']);
    assert(dash() =~= seq!['-']);
    text::law_occurs_between(c, cd_space());
    lemma_begins_tilde(t);
    if text::begins(t, tilde_slash()) {
        assert(t.len() >= 2);
        assert(h.push('/') + t.skip(2) =~= h + t.skip(1));
    }
    let place = if t == seq!['~'] {
        h
    } else if t.len() >= 2 && t[0] == '~' && t[1] == '/' {
        h + t.skip(1)
    } else {
        path::join(cwd, t)
    };
    assert(tilde().len() == 1 && dash()[0] == '-' && tilde()[0] == '~');
    assert(t != dash() ==> cd_path(t, cwd, env) == Some(place));
    assert(t == dash() ==> cd_path(t, cwd, env) is None);
    assert(text::begins(c, cd_space()) <==> cd_space().is_prefix_of(c));
    if c == cd_space() + rest {
        assert(cd_space().is_prefix_of(c));
        assert(c.skip(3) =~= rest);
        assert(c.len() >= 3 && cd_word().len() == 2);
        assert(c != cd_word());
    }
}

proof fn lemma_begins_tilde(t: Seq<char>)
    ensures
        text::begins(t, tilde_slash()) <==> t.len() >= 2 && t[0] == '~' && t[1] == '/',
{
    if t.len() >= 2 {
        let sub = t.subrange(0, 2);
        assert(sub[0] == t[0] && sub[1] == t[1]);
        assert(tilde_slash()[0] == '~' && tilde_slash()[1] == '/');
        if t[0] == '~' && t[1] == '/' {
            assert(sub =~= tilde_slash());
        }
    }
}

/// A target that is empty, special or absolute, goes up or begins with `.` is not undone, wherever it
/// ended; and what undoing gives is spelled from its components, of which there is one at least.
pub proof fn law_special_targets_are_not_undone(target: Seq<char>, cwd: Seq<char>)
    ensures
        ({
            let t = unquoted(target);
            &&& t.len() == 0 ==> undone(target, cwd) is None
            &&& t == seq!['-'] || t == seq!['~'] ==> undone(target, cwd) is None
            &&& t.len() >= 2 && t[0] == '~' && t[1] == '/' ==> undone(target, cwd) is None
            &&& t.len() > 0 && t[0] == '/' ==> undone(target, cwd) is None
            &&& path::components(t).contains(seq!['.', '.']) ==> undone(target, cwd) is None
            &&& t.len() > 0 && t[0] == '.' && (t.len() == 1 || t[1] == '/') ==> undone(
                target,
                cwd,
            ) is None
            &&& undone(target, cwd) matches Some(p) ==> path::components(p).len() > 0
                && path::render(path::components(p)) == p
        }),
{
    let t = unquoted(target);
    assert(tilde() =~= seq!['~']);
    assert(dash() =~= seq!['-']);
    assert(path::dotdot() =~= seq!['.', '.']);
    lemma_begins_tilde(t);
    let rc = path::components(cwd);
    let n = rc.len() - path::components(t).len();
    match undone(target, cwd) {
        Some(p) => {
            let first = rc.take(n);
            path::lemma_components_well_formed(cwd);
            path::law_components_stand_between_separators(t);
            if t[0] == '.' && (t.len() == 1 || t[1] == '/') {
                assert(path::components(t)[0] == seq!['.']);
                assert(rc[n] == path::components(t)[0]);
                assert(path::is_name(rc[n]));
                assert(path::dot() =~= seq!['.']);
            }
            assert(path::well_formed(first)) by {
                assert forall|i: int| 0 <= i < first.len() implies path::is_name(
                    #[trigger] first[i],
                ) || (i == 0 && (first[i] == path::root() || first[i] == path::dot())) by {
                    assert(first[i] == rc[i]);
                }
            }
            path::law_spelling_reads_back(first);
        },
        None => {},
    }
}

/// Whether a text stands for a path by itself: an absolute path, the home directory or a path below
/// it, a variable or a path below its value.
pub open spec fn stands_for(
    u: Seq<char>,
    p: Seq<char>,
    base: Seq<char>,
    env: Map<Seq<char>, Seq<char>>,
) -> bool {
    let home = vars::lookup(env, seq!['H', 'O', 'M', 'E']);
    ||| u.len() > 0 && u[0] == '/' && p == u
    ||| u == seq!['~'] && home == Some(p)
    ||| u.len() >= 2 && u[0] == '~' && u[1] == '/' && home is Some && p == home->0 + u.skip(1)
    ||| u.len() > 0 && u[0] == '$' && exists|n: int|
        0 < n <= u.len() && !u.take(n).contains('/') && (n < u.len() ==> u[n] == '/')
            && token_value(#[trigger] u.take(n), env) is Some && p == path::join(
            base,
            token_value(u.take(n), env)->0 + u.skip(n),
        )
}

/// Whether a token as a whole names a path.
pub open spec fn names_whole(
    t: Seq<char>,
    p: Seq<char>,
    base: Seq<char>,
    env: Map<Seq<char>, Seq<char>>,
) -> bool {
    ||| stands_for(t, p, base, env)
    ||| t.len() > 0 && t[0] != '$' && t[0] != '/' && !(t[0] == '~' && (t.len() == 1 || t[1] == '/'))
        && (t.contains('/') || t == seq!['.'] || t == seq!['.', '.']) && p == path::join(base, t)
}

/// Whether a token names a path behind its first `=`.
pub open spec fn names_behind_equals(
    t: Seq<char>,
    p: Seq<char>,
    base: Seq<char>,
    env: Map<Seq<char>, Seq<char>>,
) -> bool {
    exists|i: int|
        0 <= i < t.len() && t[i] == '=' && !(#[trigger] t.take(i)).contains('=') && stands_for(
            t.skip(i + 1),
            p,
            base,
            env,
        )
}

proof fn lemma_until_first(s: Seq<char>, class: CharClass, c: char, n: int)
    requires
        forall|x: char| #[trigger] class.has(x) <==> x == c,
        0 <= n <= s.len(),
    ensures
        text::until(s, class) == n <==> !s.take(n).contains(c) && (n < s.len() ==> s[n] == c),
{
    text::lemma_until_run(s, class);
    if text::until(s, class) == n {
        if s.take(n).contains(c) {
            let i = choose|i: int| 0 <= i < n && s.take(n)[i] == c;
            assert(!class.has(s[i]));
        }
    }
    if !s.take(n).contains(c) && (n < s.len() ==> s[n] == c) {
        assert forall|i: int| 0 <= i < n implies !class.has(s[i]) by {
            assert(s.take(n)[i] == s[i]);
        }
        text::lemma_until(s, class, n);
    }
}

proof fn lemma_stands_for(
    u: Seq<char>,
    p: Seq<char>,
    base: Seq<char>,
    env: Map<Seq<char>, Seq<char>>,
)
    ensures
        stands_for(u, p, base, env) <==> plain_path(u, base, env) == Some(p),
{
    let slash = CharClass::Slash;
    assert(home_name() =~= seq!['H', 'O', 'M', 'E']);
    assert(tilde() =~= seq!['~']);
    lemma_begins_tilde(u);
    let n = text::until(u, slash);
    text::lemma_until_run(u, slash);
    if u.len() > 0 && u[0] == '$' {
        lemma_until_first(u, slash, '/', n);
        assert(n > 0);
        if plain_path(u, base, env) == Some(p) {
            assert(token_value(u.take(n), env) is Some);
        }
        if stands_for(u, p, base, env) {
            let m = choose|m: int|
                0 < m <= u.len() && !u.take(m).contains('/') && (m < u.len() ==> u[m] == '/')
                    && token_value(#[trigger] u.take(m), env) is Some && p == path::join(
                    base,
                    token_value(u.take(m), env)->0 + u.skip(m),
                );
            lemma_until_first(u, slash, '/', m);
        }
    }
}

proof fn lemma_names_whole(
    t: Seq<char>,
    p: Seq<char>,
    base: Seq<char>,
    env: Map<Seq<char>, Seq<char>>,
)
    ensures
        names_whole(t, p, base, env) <==> word_path(t, base, env) == Some(p),
{
    lemma_stands_for(t, p, base, env);
    assert(tilde() =~= seq!['~']);
    assert(path::dot() =~= seq!['.']);
    assert(path::dotdot() =~= seq!['.', '.']);
    lemma_begins_tilde(t);
    if t.len() == 1 && t[0] == '~' {
        assert(t =~= tilde());
    }
}

proof fn lemma_names_behind_equals(
    t: Seq<char>,
    p: Seq<char>,
    base: Seq<char>,
    env: Map<Seq<char>, Seq<char>>,
)
    ensures
        names_behind_equals(t, p, base, env) <==> assigned_path(t, base, env) == Some(p),
{
    let equals = CharClass::Equals;
    let i = text::until(t, equals);
    text::lemma_until_run(t, equals);
    lemma_until_first(t, equals, '=', i);
    lemma_stands_for(t.skip(i + 1), p, base, env);
    if assigned_path(t, base, env) == Some(p) {
        assert(!t.take(i).contains('='));
    }
    if names_behind_equals(t, p, base, env) {
        let m = choose|m: int|
            0 <= m < t.len() && t[m] == '=' && !(#[trigger] t.take(m)).contains('=') && stands_for(
                t.skip(m + 1),
                p,
                base,
                env,
            );
        lemma_until_first(t, equals, '=', m);
    }
}

proof fn lemma_named_paths_all(
    ts: Seq<Seq<char>>,
    base: Seq<char>,
    env: Map<Seq<char>, Seq<char>>,
    p: Seq<char>,
)
    ensures
        named_paths(ts, base, env).contains(p) <==> exists|k: int|
            0 <= k < ts.len() && (word_path(#[trigger] ts[k], base, env) == Some(p)
                || assigned_path(ts[k], base, env) == Some(p)),
    decreases ts.len(),
{
    let all = named_paths(ts, base, env);
    if ts.len() > 0 {
        let d = ts.drop_last();
        let t = ts.last();
        let first = named_paths(d, base, env);
        let more = with(first, word_path(t, base, env));
        lemma_named_paths_all(d, base, env, p);
        lemma_with(first, word_path(t, base, env), p);
        lemma_with(more, assigned_path(t, base, env), p);
        assert(ts[ts.len() - 1] == t);
        if first.contains(p) {
            let k = choose|k: int|
                0 <= k < d.len() && (word_path(#[trigger] d[k], base, env) == Some(p)
                    || assigned_path(d[k], base, env) == Some(p));
            assert(ts[k] == d[k]);
        }
        if exists|k: int|
            0 <= k < ts.len() && (word_path(#[trigger] ts[k], base, env) == Some(p)
                || assigned_path(ts[k], base, env) == Some(p)) {
            let k = choose|k: int|
                0 <= k < ts.len() && (word_path(#[trigger] ts[k], base, env) == Some(p)
                    || assigned_path(ts[k], base, env) == Some(p));
            if k < d.len() {
                assert(d[k] == ts[k]);
            }
        }
    }
}

proof fn lemma_with(ps: Seq<Seq<char>>, o: Option<Seq<char>>, p: Seq<char>)
    ensures
        with(ps, o).contains(p) <==> ps.contains(p) || o == Some(p),
{
    match o {
        Some(t) => {
            let all = ps.push(t);
            if ps.contains(p) {
                let i = choose|i: int| 0 <= i < ps.len() && ps[i] == p;
                assert(all[i] == p);
            }
            if all.contains(p) && p != t {
                let i = choose|i: int| 0 <= i < all.len() && all[i] == p;
                assert(ps[i] == p);
            }
            assert(all[ps.len() as int] == t);
        },
        None => {},
    }
}

proof fn lemma_real_dirs_all(ps: Seq<Seq<char>>, disk: fs::Disk, d: Seq<char>)
    ensures
        real_dirs(ps, disk).contains(d) <==> disk.dirs.contains(d) && exists|k: int|
            0 <= k < ps.len() && path::normalized(#[trigger] ps[k]) == d,
    decreases ps.len(),
{
    let all = real_dirs(ps, disk);
    if all.contains(d) {
        let i = choose|i: int| 0 <= i < all.len() && all[i] == d;
        lemma_real_dirs(ps, disk, i);
    }
    if ps.len() > 0 && disk.dirs.contains(d) && exists|k: int|
        0 <= k < ps.len() && path::normalized(#[trigger] ps[k]) == d {
        let k = choose|k: int| 0 <= k < ps.len() && path::normalized(#[trigger] ps[k]) == d;
        let front = ps.drop_last();
        lemma_real_dirs_all(front, disk, d);
        if k < front.len() {
            assert(path::normalized(front[k]) == d);
            let i = choose|i: int|
                0 <= i < real_dirs(front, disk).len() && real_dirs(front, disk)[i] == d;
            assert(all[i] == d);
        } else {
            assert(all[real_dirs(front, disk).len() as int] == d);
        }
    }
}

/// Whether a token names a path, as a whole or behind its first `=`.
pub open spec fn names(
    t: Seq<char>,
    p: Seq<char>,
    base: Seq<char>,
    env: Map<Seq<char>, Seq<char>>,
) -> bool {
    names_whole(t, p, base, env) || names_behind_equals(t, p, base, env)
}

/// A directory is among those that a command speaks of just where some token names a path, as a
/// whole or behind its first `=`, whose normalised form it is, and the disk has it as a directory.
pub proof fn law_dirs_are_those_named(
    cmd: Seq<char>,
    base: Seq<char>,
    env: Map<Seq<char>, Seq<char>>,
    disk: fs::Disk,
    d: Seq<char>,
)
    ensures
        dirs_in(cmd, base, env, disk).contains(d) <==> disk.dirs.contains(d) && exists|
            k: int,
            p: Seq<char>,
        |
            0 <= k < parse::tokens(cmd).len() && path::normalized(p) == d && #[trigger] names(
                parse::tokens(cmd)[k],
                p,
                base,
                env,
            ),
{
    let ts = parse::tokens(cmd);
    let named = named_paths(ts, base, env);
    text::lemma_dedup(real_dirs(named, disk));
    lemma_real_dirs_all(named, disk, d);
    if dirs_in(cmd, base, env, disk).contains(d) {
        let j = choose|j: int| 0 <= j < named.len() && path::normalized(#[trigger] named[j]) == d;
        let p = named[j];
        assert(named.contains(p));
        lemma_named_paths_all(ts, base, env, p);
        let k = choose|k: int|
            0 <= k < ts.len() && (word_path(#[trigger] ts[k], base, env) == Some(p)
                || assigned_path(ts[k], base, env) == Some(p));
        lemma_names_whole(ts[k], p, base, env);
        lemma_names_behind_equals(ts[k], p, base, env);
        assert(names(ts[k], p, base, env));
    }
    assert forall|k: int, p: Seq<char>|
        disk.dirs.contains(d) && 0 <= k < ts.len() && path::normalized(p) == d && #[trigger] names(
            ts[k],
            p,
            base,
            env,
        ) implies dirs_in(cmd, base, env, disk).contains(d) by {
        lemma_names_whole(ts[k], p, base, env);
        lemma_names_behind_equals(ts[k], p, base, env);
        lemma_named_paths_all(ts, base, env, p);
        assert(named.contains(p));
        let j = choose|j: int| 0 <= j < named.len() && named[j] == p;
        assert(path::normalized(named[j]) == d);
        assert(real_dirs(named, disk).contains(d));
    }
}

proof fn lemma_named_paths_add(
    a: Seq<Seq<char>>,
    b: Seq<Seq<char>>,
    base: Seq<char>,
    env: Map<Seq<char>, Seq<char>>,
)
    ensures
        named_paths(a + b, base, env) == named_paths(a, base, env) + named_paths(b, base, env),
    decreases b.len(),
{
    if b.len() == 0 {
        assert(a + b =~= a);
        assert(named_paths(b, base, env) =~= b);
    } else {
        assert((a + b).drop_last() =~= a + b.drop_last());
        lemma_named_paths_add(a, b.drop_last(), base, env);
    }
    assert(named_paths(a + b, base, env) =~= named_paths(a, base, env) + named_paths(b, base, env));
}

proof fn lemma_real_dirs_add(a: Seq<Seq<char>>, b: Seq<Seq<char>>, disk: fs::Disk)
    ensures
        real_dirs(a + b, disk) == real_dirs(a, disk) + real_dirs(b, disk),
    decreases b.len(),
{
    if b.len() == 0 {
        assert(a + b =~= a);
        assert(real_dirs(b, disk) =~= b);
    } else {
        assert((a + b).drop_last() =~= a + b.drop_last());
        lemma_real_dirs_add(a, b.drop_last(), disk);
    }
    assert(real_dirs(a + b, disk) =~= real_dirs(a, disk) + real_dirs(b, disk));
}

/// The directories that a command speaks of come in the order of its tokens, each where it comes
/// first; of one token what it names as a whole comes before what it names behind its `=`.
pub proof fn law_dirs_come_in_order(
    a: Seq<char>,
    b: Seq<char>,
    cmd: Seq<char>,
    p: Seq<char>,
    q: Seq<char>,
    base: Seq<char>,
    env: Map<Seq<char>, Seq<char>>,
    disk: fs::Disk,
)
    ensures
        parse::tokens(cmd) == parse::tokens(a) + parse::tokens(b) ==> dirs_in(cmd, base, env, disk)
            == text::dedup(dirs_in(a, base, env, disk) + dirs_in(b, base, env, disk)),
        parse::tokens(cmd).len() == 1 && names_whole(parse::tokens(cmd)[0], p, base, env)
            && names_behind_equals(parse::tokens(cmd)[0], q, base, env) && disk.dirs.contains(
            path::normalized(p),
        ) && disk.dirs.contains(path::normalized(q)) && path::normalized(p) != path::normalized(q)
            ==> dirs_in(cmd, base, env, disk) == seq![path::normalized(p), path::normalized(q)],
{
    let ta = parse::tokens(a);
    let tb = parse::tokens(b);
    let na = named_paths(ta, base, env);
    let nb = named_paths(tb, base, env);
    lemma_named_paths_add(ta, tb, base, env);
    lemma_real_dirs_add(na, nb, disk);
    text::law_dedup_of_two(real_dirs(na, disk), real_dirs(nb, disk));
    let ts = parse::tokens(cmd);
    if ts.len() == 1 && names_whole(ts[0], p, base, env) && names_behind_equals(
        ts[0],
        q,
        base,
        env,
    ) && disk.dirs.contains(path::normalized(p)) && disk.dirs.contains(path::normalized(q))
        && path::normalized(p) != path::normalized(q) {
        lemma_names_whole(ts[0], p, base, env);
        lemma_names_behind_equals(ts[0], q, base, env);
        let none = ts.drop_last();
        assert(ts.last() == ts[0]);
        assert(named_paths(none, base, env) =~= Seq::<Seq<char>>::empty());
        let two = named_paths(ts, base, env);
        assert(two =~= seq![p, q]);
        let one = two.drop_last();
        assert(one =~= seq![p]);
        assert(one.drop_last() =~= Seq::<Seq<char>>::empty());
        let x = path::normalized(p);
        let y = path::normalized(q);
        assert(real_dirs(one.drop_last(), disk) =~= Seq::<Seq<char>>::empty());
        assert(real_dirs(one, disk) =~= seq![x]);
        let both = real_dirs(two, disk);
        assert(both =~= seq![x, y]);
        assert(both.drop_last() =~= seq![x]);
        let single = both.drop_last();
        assert(single.drop_last() =~= Seq::<Seq<char>>::empty());
        assert(text::dedup(single.drop_last()) =~= Seq::<Seq<char>>::empty());
        assert(text::dedup(single) =~= seq![x]);
        assert(!seq![x].contains(y));
        assert(text::dedup(both) =~= seq![x, y]);
    }
}

/// A score counts the paths that the disk has when they are taken from the directory.
pub proof fn law_score_counts_what_exists(cwd: Seq<char>, rels: Seq<Seq<char>>, disk: fs::Disk)
    ensures
        score(cwd, rels, disk) == rels.filter(
            |r: Seq<char>| disk.paths.contains(path::normalized(path::join(cwd, r))),
        ).len(),
    decreases rels.len(),
{
    reveal(Seq::filter);
    if rels.len() > 0 {
        law_score_counts_what_exists(cwd, rels.drop_last(), disk);
    }
}

} // verus!
