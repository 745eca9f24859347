//! From scrollback to paths: the lines are divided into sections by the prompts in them, each
//! section gets the directory in which its output was written, and the candidates of all lines are
//! offered, the latest first.

use vstd::prelude::*;
use crate::cd;
use crate::cd::{best_candidate, extract_dir_candidates, undo_cd};
use crate::fs;
use crate::fs::{exists_at, same_list, Filesystem};
use crate::parse;
use crate::parse::{extract_absolute, extract_absolute_greedy, extract_dotwords, extract_relative};
use crate::path;
use crate::path::{components_of, join_path, path_variants, rebase_path};
use crate::prompt;
use crate::prompt::{extract_command_from_prompt_line, find_cd_in_line, is_prompt_line,
    prompt_line_dirname, prompt_literals};
use crate::text;
use crate::text::{chars_of, push_new, test_at};
use crate::vars::Vars;

verus! {

/// The most prompts, counted from the end, that are tracked.
pub const TRACKED_PROMPTS: usize = 20;

// ---------------------------------------------------------------------------------------------
// Single lines
// ---------------------------------------------------------------------------------------------

/// The positions of the prompt lines, the last one first.
pub open spec fn prompt_positions(lines: Seq<Seq<char>>, lits: Seq<Seq<char>>) -> Seq<int>
    decreases lines.len(),
{
    if lines.len() == 0 {
        Seq::<int>::empty()
    } else if prompt::prompt_line(lines.last(), lits) {
        seq![lines.len() - 1] + prompt_positions(lines.drop_last(), lits)
    } else {
        prompt_positions(lines.drop_last(), lits)
    }
}

/// The directory in which the command of a prompt line was given, if it left the shell in `after`:
/// what undoes a `cd` on the line; failing that, the directory below that the prompt names; failing
/// that, `after`.
pub open spec fn dir_before(line: Seq<char>, after: Seq<char>, disk: fs::Disk) -> Seq<char> {
    match prompt::cd_target(line) {
        Some(t) => match cd::undone(t, after) {
            Some(p) => p,
            None => match prompt::dirname_in(line) {
                Some(n) => if disk.dirs.contains(path::join(after, n)) {
                    path::join(after, n)
                } else {
                    after
                },
                None => after,
            },
        },
        None => after,
    }
}

/// Whether a line ends in the command, with nothing or a space before it.
pub open spec fn shows_command(line: Seq<char>, cmd: Seq<char>) -> bool {
    &&& cmd.len() > 0
    &&& text::ends(line, cmd)
    &&& line.len() == cmd.len() || line[line.len() - cmd.len() - 1] == ' '
}

/// The last entry of the log, before `n`, whose command the line shows.
pub open spec fn last_entry(
    line: Seq<char>,
    log: Seq<(Seq<char>, Seq<char>)>,
    n: int,
) -> Option<int>
    decreases n,
{
    if n <= 0 {
        None
    } else if shows_command(line, log[n - 1].1) {
        Some(n - 1)
    } else {
        last_entry(line, log, n - 1)
    }
}

/// Whether a directory is in a list, under whatever spelling.
pub open spec fn listed(dirs: Seq<Seq<char>>, d: Seq<char>) -> bool {
    exists|i: int|
        0 <= i < dirs.len() && path::components(#[trigger] dirs[i]) == path::components(d)
}

/// A list of directories with those of another that it lacks.
pub open spec fn extended(dirs: Seq<Seq<char>>, more: Seq<Seq<char>>) -> Seq<Seq<char>>
    decreases more.len(),
{
    if more.len() == 0 {
        dirs
    } else {
        let d = extended(dirs, more.drop_last());
        if listed(d, more.last()) {
            d
        } else {
            d.push(more.last())
        }
    }
}

/// The relative paths and bare file names in the lines from `a` up to `b`.
pub open spec fn rel_paths(lines: Seq<Seq<char>>, a: int, b: int) -> Seq<Seq<char>>
    decreases b - a,
{
    if b <= a {
        Seq::<Seq<char>>::empty()
    } else {
        rel_paths(lines, a, b - 1) + parse::relatives(lines[b - 1]) + parse::dotwords(lines[b - 1])
    }
}

/// Those of the paths that exist, the last one first.
pub open spec fn existing(ps: Seq<Seq<char>>, disk: fs::Disk) -> Seq<Seq<char>>
    decreases ps.len(),
{
    if ps.len() == 0 {
        ps
    } else if disk.paths.contains(ps.last()) {
        seq![ps.last()] + existing(ps.drop_last(), disk)
    } else {
        existing(ps.drop_last(), disk)
    }
}

/// Those of the candidates that exist in the directory `dir`, written for the directory `cwd`, the
/// last one first.
pub open spec fn existing_in(
    ps: Seq<Seq<char>>,
    dir: Seq<char>,
    cwd: Seq<char>,
    disk: fs::Disk,
) -> Seq<Seq<char>>
    decreases ps.len(),
{
    if ps.len() == 0 {
        ps
    } else if fs::present_at(ps.last(), dir, disk) {
        seq![path::rebased(ps.last(), dir, cwd)] + existing_in(ps.drop_last(), dir, cwd, disk)
    } else {
        existing_in(ps.drop_last(), dir, cwd, disk)
    }
}

// ---------------------------------------------------------------------------------------------
// The whole scrollback
// ---------------------------------------------------------------------------------------------

/// All that the result depends on: the lines, the present directory, the texts by which prompts
/// are known, the log of commands with their directories, the environment and the disk.
pub struct Session {
    pub lines: Seq<Seq<char>>,
    pub cwd: Seq<char>,
    pub lits: Seq<Seq<char>>,
    pub log: Seq<(Seq<char>, Seq<char>)>,
    pub env: Map<Seq<char>, Seq<char>>,
    pub disk: fs::Disk,
}

impl Session {
    /// The positions of the prompts that are tracked, the last one first.
    pub open spec fn prompts(self) -> Seq<int> {
        let all = prompt_positions(self.lines, self.lits);
        if all.len() > TRACKED_PROMPTS {
            all.take(TRACKED_PROMPTS as int)
        } else {
            all
        }
    }

    /// The line of prompt `k`.
    pub open spec fn prompt_text(self, k: int) -> Seq<char> {
        self.lines[self.prompts()[k]]
    }

    /// The directory of prompt `k` as far as the changes of directory on the prompt lines tell it.
    pub open spec fn undone_dir(self, k: int) -> Seq<char>
        decreases k + 1,
    {
        if k < 0 {
            self.cwd
        } else {
            dir_before(self.prompt_text(k), self.undone_dir(k - 1), self.disk)
        }
    }

    /// The entries of the log that are left for prompt `k`: those before the ones matched by later
    /// prompts.
    pub open spec fn log_left(self, k: int) -> int
        decreases k,
    {
        if k <= 0 {
            self.log.len() as int
        } else {
            match last_entry(self.prompt_text(k - 1), self.log, self.log_left(k - 1)) {
                Some(j) => j,
                None => self.log_left(k - 1),
            }
        }
    }

    /// The entry of the log for prompt `k`.
    pub open spec fn entry(self, k: int) -> Option<int> {
        last_entry(self.prompt_text(k), self.log, self.log_left(k))
    }

    /// The directory in which the command of prompt `k` was given: as logged, or else as undone.
    pub open spec fn tracked_dir(self, k: int) -> Seq<char> {
        match self.entry(k) {
            Some(j) => self.log[j].0,
            None => self.undone_dir(k),
        }
    }

    /// The command of prompt `k`: as logged, or else as shown.
    pub open spec fn command(self, k: int) -> Seq<char> {
        match self.entry(k) {
            Some(j) => self.log[j].1,
            None => prompt::command_in(self.prompt_text(k), self.lits),
        }
    }

    /// The directories in which the output behind prompt `k` may have been written.
    pub open spec fn candidates(self, k: int) -> Seq<Seq<char>> {
        extended(
            seq![self.tracked_dir(k)],
            cd::dirs_in(self.command(k), self.tracked_dir(k), self.env, self.disk),
        )
    }

    /// The position behind the output of prompt `k`.
    pub open spec fn section_end(self, k: int) -> int {
        if k <= 0 {
            self.lines.len() as int
        } else {
            self.prompts()[k - 1]
        }
    }

    /// The directory in which the output behind prompt `k` was written: the one of the candidates
    /// in which most of its relative paths exist.
    pub open spec fn section_dir(self, k: int) -> Seq<char> {
        cd::best(
            self.candidates(k),
            rel_paths(self.lines, self.prompts()[k], self.section_end(k)),
            self.disk,
        )
    }

    /// The directory for line `i`, if prompt `k` is the first that can be at or before it.
    pub open spec fn dir_from(self, i: int, k: int) -> Seq<char>
        decreases self.prompts().len() - k,
    {
        if k >= self.prompts().len() {
            self.cwd
        } else if i >= self.prompts()[k] {
            self.section_dir(k)
        } else {
            self.dir_from(i, k + 1)
        }
    }

    /// The directory in which line `i` was written: that of the tracked prompt at or before it, and
    /// the present one where there is none.
    pub open spec fn line_dir(self, i: int) -> Seq<char> {
        self.dir_from(i, 0)
    }

    /// The absolute paths that line `i` offers.
    pub open spec fn absolute_offers(self, i: int) -> Seq<Seq<char>> {
        existing(
            parse::absolutes(self.lines[i]) + parse::greedy(self.lines[i], self.disk),
            self.disk,
        )
    }

    /// The relative paths that line `i` offers.
    pub open spec fn relative_offers(self, i: int) -> Seq<Seq<char>> {
        existing_in(parse::relatives(self.lines[i]), self.line_dir(i), self.cwd, self.disk)
    }

    /// The bare file names that line `i` offers: none without a prompt.
    pub open spec fn dotword_offers(self, i: int) -> Seq<Seq<char>> {
        if self.lits.len() > 0 {
            existing_in(parse::dotwords(self.lines[i]), self.line_dir(i), self.cwd, self.disk)
        } else {
            Seq::<Seq<char>>::empty()
        }
    }

    /// The paths that line `i` offers.
    pub open spec fn offers(self, i: int) -> Seq<Seq<char>> {
        self.absolute_offers(i) + self.relative_offers(i) + self.dotword_offers(i)
    }

    /// The paths that the lines from `i` on offer, those of later lines first.
    pub open spec fn offers_from(self, i: int) -> Seq<Seq<char>>
        decreases self.lines.len() - i,
    {
        if i >= self.lines.len() {
            Seq::<Seq<char>>::empty()
        } else {
            self.offers_from(i + 1) + self.offers(i)
        }
    }

    /// The result: all paths offered, the latest first, each once.
    pub open spec fn harvest(self) -> Seq<Seq<char>> {
        text::dedup(self.offers_from(0))
    }
}

// ---------------------------------------------------------------------------------------------
// Executable functions
// ---------------------------------------------------------------------------------------------

/// What the stages work on.
pub struct Input<'a, F: Filesystem + ?Sized> {
    pub lines: &'a Vec<String>,
    pub cwd: &'a str,
    pub literals: &'a Vec<&'a str>,
    pub log: &'a Vec<(String, String)>,
    pub env: &'a Vars,
    pub fs: &'a F,
}

impl<'a, F: Filesystem + ?Sized> View for Input<'a, F> {
    type V = Session;

    open spec fn view(&self) -> Session {
        Session {
            lines: self.lines.deep_view(),
            cwd: self.cwd@,
            lits: self.literals.deep_view(),
            log: self.log.deep_view(),
            env: self.env@,
            disk: self.fs.disk(),
        }
    }
}

/// Finds the directory in which the command of a prompt line was given.
pub fn find_dir_before<F: Filesystem + ?Sized>(line: &str, after: &str, fs: &F) -> (r: String)
    ensures
        r@ == dir_before(line@, after@, fs.disk()),
{
    match find_cd_in_line(line) {
        Some(t) => {
            match undo_cd(t, after) {
                Some(p) => p,
                None => {
                    match prompt_line_dirname(line) {
                        Some(n) => {
                            let below: String = join_path(after, n);
                            if fs.is_dir(below.as_str()) {
                                below
                            } else {
                                after.to_owned()
                            }
                        },
                        None => after.to_owned(),
                    }
                },
            }
        },
        None => after.to_owned(),
    }
}

/// Tests whether a line ends in the command, with nothing or a space before it.
pub fn line_shows_command(line: &str, cmd: &str) -> (r: bool)
    ensures
        r == shows_command(line@, cmd@),
{
    let cs: Vec<char> = chars_of(line);
    let pat: Vec<char> = chars_of(cmd);
    assert(cs@.take(cs@.len() as int) =~= line@);
    if pat.len() == 0 || pat.len() > cs.len() {
        return false;
    }
    let before: usize = cs.len() - pat.len();
    test_at(&cs, cs.len(), &pat, before) && (before == 0 || cs[before - 1] == ' ')
}

/// Tests whether a directory is in a list, under whatever spelling.
fn is_listed(dirs: &Vec<String>, d: &str) -> (r: bool)
    ensures
        r == listed(dirs.deep_view(), d@),
{
    let cs: Vec<String> = components_of(d);
    let mut i: usize = 0;
    while i < dirs.len()
        invariant
            i <= dirs@.len(),
            cs.deep_view() == path::components(d@),
            forall|k: int|
                0 <= k < i ==> path::components(#[trigger] dirs.deep_view()[k])
                    != path::components(d@),
        decreases dirs@.len() - i,
    {
        let other: Vec<String> = components_of(dirs[i].as_str());
        assert(dirs.deep_view()[i as int] == dirs@[i as int]@);
        if same_list(&other, &cs) {
            return true;
        }
        i = i + 1;
    }
    false
}

/// Adds to a list of directories those of another that it lacks.
fn extend_dirs(dirs: Vec<String>, more: &Vec<String>) -> (r: Vec<String>)
    ensures
        r.deep_view() == extended(dirs.deep_view(), more.deep_view()),
{
    let ghost start = dirs.deep_view();
    let ghost all = more.deep_view();
    let mut out: Vec<String> = dirs;
    let mut i: usize = 0;
    assert(all.take(0) =~= Seq::<Seq<char>>::empty());
    while i < more.len()
        invariant
            i <= more@.len(),
            all == more.deep_view(),
            out.deep_view() == extended(start, all.take(i as int)),
        decreases more@.len() - i,
    {
        let ghost before = out.deep_view();
        assert(all.take(i + 1).drop_last() =~= all.take(i as int));
        assert(all.take(i + 1).last() == more@[i as int]@);
        if !is_listed(&out, more[i].as_str()) {
            out.push(more[i].clone());
            assert(out.deep_view() =~= before.push(more@[i as int]@));
        }
        i = i + 1;
    }
    assert(all.take(i as int) =~= all);
    out
}

/// Appends a list of texts to another.
fn append_all(out: &mut Vec<String>, more: Vec<String>)
    ensures
        final(out).deep_view() == old(out).deep_view() + more.deep_view(),
{
    let ghost start = out.deep_view();
    let ghost all = more.deep_view();
    let mut i: usize = 0;
    assert(out.deep_view() =~= start + all.take(0));
    while i < more.len()
        invariant
            i <= more@.len(),
            all == more.deep_view(),
            out.deep_view() == start + all.take(i as int),
        decreases more@.len() - i,
    {
        let ghost before = out.deep_view();
        out.push(more[i].clone());
        i = i + 1;
        assert(out.deep_view() =~= before.push(more@[i - 1]@));
        assert(out.deep_view() =~= start + all.take(i as int));
    }
    assert(all.take(i as int) =~= all);
}

/// Collects the relative paths and bare file names in the lines from `a` up to `b`.
pub fn collect_rel_paths(lines: &Vec<String>, a: usize, b: usize) -> (r: Vec<String>)
    requires
        a <= b <= lines@.len(),
    ensures
        r.deep_view() == rel_paths(lines.deep_view(), a as int, b as int),
{
    let mut out: Vec<String> = Vec::new();
    let mut i: usize = a;
    assert(out.deep_view() =~= rel_paths(lines.deep_view(), a as int, a as int));
    while i < b
        invariant
            a <= i <= b <= lines@.len(),
            out.deep_view() == rel_paths(lines.deep_view(), a as int, i as int),
        decreases b - i,
    {
        assert(lines.deep_view()[i as int] == lines@[i as int]@);
        append_all(&mut out, extract_relative(lines[i].as_str()));
        append_all(&mut out, extract_dotwords(lines[i].as_str()));
        i = i + 1;
    }
    out
}

impl<'a, F: Filesystem + ?Sized> Input<'a, F> {
    /// Finds the prompts that are tracked, the last one first.
    pub fn find_prompts(&self) -> (r: Vec<usize>)
        ensures
            r@.len() == self@.prompts().len(),
            forall|k: int|
                0 <= k < r@.len() ==> #[trigger] r@[k] == self@.prompts()[k] && r@[k]
                    < self.lines@.len(),
            forall|k: int, m: int| 0 <= k < m < r@.len() ==> r@[k] > r@[m],
    {
        let ghost lines = self.lines.deep_view();
        let ghost lits = self.literals.deep_view();
        let ghost all = prompt_positions(lines, lits);
        let ghost mut seen: Seq<int> = Seq::<int>::empty();
        let mut out: Vec<usize> = Vec::new();
        let mut i: usize = self.lines.len();
        assert(lines.take(i as int) =~= lines);
        assert(seen + prompt_positions(lines, lits) =~= all);
        while i > 0 && out.len() < TRACKED_PROMPTS
            invariant
                i <= self.lines@.len(),
                lines == self.lines.deep_view(),
                lits == self.literals.deep_view(),
                all == prompt_positions(lines, lits),
                all == seen + prompt_positions(lines.take(i as int), lits),
                seen.len() == out@.len(),
                out@.len() <= TRACKED_PROMPTS,
                forall|k: int|
                    0 <= k < out@.len() ==> #[trigger] out@[k] == seen[k] && i <= out@[k]
                        < self.lines@.len(),
                forall|k: int, m: int| 0 <= k < m < out@.len() ==> out@[k] > out@[m],
            decreases i,
        {
            let ghost now = lines.take(i as int);
            i = i - 1;
            assert(now.drop_last() =~= lines.take(i as int));
            assert(now.last() == self.lines@[i as int]@);
            if is_prompt_line(self.lines[i].as_str(), self.literals.as_slice()) {
                out.push(i);
                proof {
                    let before = seen;
                    seen = before.push(i as int);
                    assert(all =~= seen + prompt_positions(lines.take(i as int), lits));
                }
            }
        }
        proof {
            if i == 0 {
                assert(prompt_positions(lines.take(0), lits) =~= Seq::<int>::empty());
                assert(all =~= seen);
                assert(all.take(TRACKED_PROMPTS as int) =~= all || all.len() < TRACKED_PROMPTS);
            } else {
                assert(all.take(TRACKED_PROMPTS as int) =~= seen);
                if all.len() == TRACKED_PROMPTS {
                    assert(all =~= seen);
                }
            }
            assert(self@.prompts() =~= seen);
        }
        out
    }

    /// Undoes the changes of directory on the prompt lines, one after the other.
    pub fn undo_dirs(&self, prompts: &Vec<usize>) -> (r: Vec<String>)
        requires
            prompts@.len() == self@.prompts().len(),
            forall|k: int|
                0 <= k < prompts@.len() ==> #[trigger] prompts@[k] == self@.prompts()[k]
                    && prompts@[k] < self.lines@.len(),
        ensures
            r@.len() == prompts@.len(),
            forall|k: int| 0 <= k < r@.len() ==> (#[trigger] r@[k])@ == self@.undone_dir(k),
    {
        let mut out: Vec<String> = Vec::new();
        let mut cur: String = self.cwd.to_owned();
        let mut k: usize = 0;
        while k < prompts.len()
            invariant
                k <= prompts@.len(),
                prompts@.len() == self@.prompts().len(),
                forall|k: int|
                    0 <= k < prompts@.len() ==> #[trigger] prompts@[k] == self@.prompts()[k]
                        && prompts@[k] < self.lines@.len(),
                out@.len() == k,
                cur@ == self@.undone_dir(k - 1),
                forall|m: int| 0 <= m < k ==> (#[trigger] out@[m])@ == self@.undone_dir(m),
            decreases prompts@.len() - k,
        {
            let line: &String = &self.lines[prompts[k]];
            assert(line@ == self@.prompt_text(k as int)) by {
                assert(self@.prompts()[k as int] == prompts@[k as int]);
            }
            let prev: String = find_dir_before(line.as_str(), cur.as_str(), self.fs);
            out.push(prev.clone());
            cur = prev;
            k = k + 1;
        }
        out
    }

    /// Finds the last entry of the log, before `n`, whose command the line shows.
    pub fn find_entry(&self, line: &str, n: usize) -> (r: Option<usize>)
        requires
            n <= self.log@.len(),
        ensures
            match r {
                Some(j) => last_entry(line@, self@.log, n as int) == Some(j as int) && j < n,
                None => last_entry(line@, self@.log, n as int) is None,
            },
    {
        let ghost log = self.log.deep_view();
        let mut i: usize = n;
        while i > 0
            invariant
                i <= n <= self.log@.len(),
                log == self.log.deep_view(),
                last_entry(line@, log, n as int) == last_entry(line@, log, i as int),
            decreases i,
        {
            assert(log[i - 1].1 == self.log@[i - 1].1@);
            if line_shows_command(line, self.log[i - 1].1.as_str()) {
                return Some(i - 1);
            }
            i = i - 1;
        }
        None
    }

    /// Collects, for each prompt, the directories in which the output behind it may have been
    /// written.
    pub fn section_candidates(
        &self,
        prompts: &Vec<usize>,
        undone: &Vec<String>,
    ) -> (r: Vec<Vec<String>>)
        requires
            prompts@.len() == self@.prompts().len(),
            undone@.len() == prompts@.len(),
            forall|k: int|
                0 <= k < prompts@.len() ==> #[trigger] prompts@[k] == self@.prompts()[k]
                    && prompts@[k] < self.lines@.len(),
            forall|k: int|
                0 <= k < undone@.len() ==> (#[trigger] undone@[k])@ == self@.undone_dir(k),
        ensures
            r@.len() == prompts@.len(),
            forall|k: int|
                0 <= k < r@.len() ==> (#[trigger] r@[k]).deep_view() == self@.candidates(k),
    {
        let mut out: Vec<Vec<String>> = Vec::new();
        let mut left: usize = self.log.len();
        let mut k: usize = 0;
        while k < prompts.len()
            invariant
                k <= prompts@.len(),
                prompts@.len() == self@.prompts().len(),
                undone@.len() == prompts@.len(),
                forall|k: int|
                    0 <= k < prompts@.len() ==> #[trigger] prompts@[k] == self@.prompts()[k]
                        && prompts@[k] < self.lines@.len(),
                forall|k: int|
                    0 <= k < undone@.len() ==> (#[trigger] undone@[k])@ == self@.undone_dir(k),
                left <= self.log@.len(),
                left == self@.log_left(k as int),
                out@.len() == k,
                forall|m: int|
                    0 <= m < k ==> (#[trigger] out@[m]).deep_view() == self@.candidates(m),
            decreases prompts@.len() - k,
        {
            let line: &String = &self.lines[prompts[k]];
            assert(line@ == self@.prompt_text(k as int)) by {
                assert(self@.prompts()[k as int] == prompts@[k as int]);
            }
            let dir: String;
            let command: String;
            match self.find_entry(line.as_str(), left) {
                Some(j) => {
                    dir = self.log[j].0.clone();
                    command = self.log[j].1.clone();
                    assert(self@.log[j as int].0 == self.log@[j as int].0@);
                    assert(self@.log[j as int].1 == self.log@[j as int].1@);
                    left = j;
                },
                None => {
                    dir = undone[k].clone();
                    command = extract_command_from_prompt_line(
                        line.as_str(),
                        self.literals.as_slice(),
                    ).to_owned();
                },
            }
            assert(dir@ == self@.tracked_dir(k as int));
            assert(command@ == self@.command(k as int));
            let more: Vec<String> = extract_dir_candidates(
                command.as_str(),
                dir.as_str(),
                self.env,
                self.fs,
            );
            let ghost first = dir@;
            let mut dirs: Vec<String> = Vec::new();
            dirs.push(dir);
            assert(dirs.deep_view() =~= seq![first]);
            out.push(extend_dirs(dirs, &more));
            k = k + 1;
        }
        out
    }

    /// Chooses, for each prompt, the directory in which the output behind it was written.
    pub fn section_dirs(
        &self,
        prompts: &Vec<usize>,
        candidates: &Vec<Vec<String>>,
    ) -> (r: Vec<String>)
        requires
            prompts@.len() == self@.prompts().len(),
            candidates@.len() == prompts@.len(),
            forall|k: int|
                0 <= k < prompts@.len() ==> #[trigger] prompts@[k] == self@.prompts()[k]
                    && prompts@[k] < self.lines@.len(),
            forall|k: int, m: int| 0 <= k < m < prompts@.len() ==> prompts@[k] > prompts@[m],
            forall|k: int|
                0 <= k < candidates@.len() ==> (#[trigger] candidates@[k]).deep_view()
                    == self@.candidates(k),
        ensures
            r@.len() == prompts@.len(),
            forall|k: int| 0 <= k < r@.len() ==> (#[trigger] r@[k])@ == self@.section_dir(k),
    {
        let mut out: Vec<String> = Vec::new();
        let mut k: usize = 0;
        while k < prompts.len()
            invariant
                k <= prompts@.len(),
                prompts@.len() == self@.prompts().len(),
                candidates@.len() == prompts@.len(),
                forall|k: int|
                    0 <= k < prompts@.len() ==> #[trigger] prompts@[k] == self@.prompts()[k]
                        && prompts@[k] < self.lines@.len(),
                forall|k: int, m: int| 0 <= k < m < prompts@.len() ==> prompts@[k] > prompts@[m],
                forall|k: int|
                    0 <= k < candidates@.len() ==> (#[trigger] candidates@[k]).deep_view()
                        == self@.candidates(k),
                out@.len() == k,
                forall|m: int| 0 <= m < k ==> (#[trigger] out@[m])@ == self@.section_dir(m),
            decreases prompts@.len() - k,
        {
            let end: usize = if k == 0 {
                self.lines.len()
            } else {
                prompts[k - 1]
            };
            assert(end == self@.section_end(k as int)) by {
                if k > 0 {
                    assert(prompts@[k - 1] == self@.prompts()[k - 1]);
                }
            }
            assert(prompts@[k as int] == self@.prompts()[k as int]);
            if k > 0 {
                assert(prompts@[k - 1] > prompts@[k as int]);
            }
            let rels: Vec<String> = collect_rel_paths(self.lines, prompts[k], end);
            let ghost all_rels = rels.deep_view();
            proof {
                lemma_extended(
                    seq![self@.tracked_dir(k as int)],
                    cd::dirs_in(
                        self@.command(k as int),
                        self@.tracked_dir(k as int),
                        self@.env,
                        self@.disk,
                    ),
                );
                assert(candidates@[k as int].deep_view() == self@.candidates(k as int));
            }
            let dirs: &[String] = candidates[k].as_slice();
            let rels: &[String] = rels.as_slice();
            assert(dirs.deep_view() =~= candidates@[k as int].deep_view());
            assert(rels.deep_view() =~= all_rels);
            out.push(best_candidate(dirs, rels, self.fs));
            k = k + 1;
        }
        out
    }

    /// Finds the directory in which line `i` was written.
    pub fn find_line_dir<'b>(
        &'b self,
        i: usize,
        prompts: &Vec<usize>,
        dirs: &'b Vec<String>,
    ) -> (r: &'b str)
        requires
            prompts@.len() == self@.prompts().len(),
            dirs@.len() == prompts@.len(),
            forall|k: int|
                0 <= k < prompts@.len() ==> #[trigger] prompts@[k] == self@.prompts()[k],
            forall|k: int| 0 <= k < dirs@.len() ==> (#[trigger] dirs@[k])@ == self@.section_dir(k),
        ensures
            r@ == self@.line_dir(i as int),
    {
        let mut k: usize = 0;
        while k < prompts.len()
            invariant
                k <= prompts@.len(),
                prompts@.len() == self@.prompts().len(),
                dirs@.len() == prompts@.len(),
                forall|k: int|
                    0 <= k < prompts@.len() ==> #[trigger] prompts@[k] == self@.prompts()[k],
                forall|k: int|
                    0 <= k < dirs@.len() ==> (#[trigger] dirs@[k])@ == self@.section_dir(k),
                self@.line_dir(i as int) == self@.dir_from(i as int, k as int),
            decreases prompts@.len() - k,
        {
            assert(prompts@[k as int] == self@.prompts()[k as int]);
            if i >= prompts[k] {
                assert(dirs@[k as int]@ == self@.section_dir(k as int));
                return dirs[k].as_str();
            }
            k = k + 1;
        }
        self.cwd
    }

    /// Offers those of the paths that exist, the last one first.
    fn offer_existing(
        &self,
        ps: &Vec<String>,
        out: &mut Vec<String>,
        Ghost(done): Ghost<Seq<Seq<char>>>,
    )
        requires
            old(out).deep_view() == text::dedup(done),
        ensures
            final(out).deep_view() == text::dedup(done + existing(ps.deep_view(), self@.disk)),
    {
        let ghost all = ps.deep_view();
        let ghost disk = self@.disk;
        let ghost mut acc: Seq<Seq<char>> = done;
        let mut i: usize = ps.len();
        assert(all.take(i as int) =~= all);
        while i > 0
            invariant
                i <= ps@.len(),
                all == ps.deep_view(),
                disk == self@.disk,
                acc + existing(all.take(i as int), disk) == done + existing(all, disk),
                out.deep_view() == text::dedup(acc),
            decreases i,
        {
            let ghost now = all.take(i as int);
            let ghost before = acc;
            i = i - 1;
            assert(now.drop_last() =~= all.take(i as int));
            assert(now.last() == ps@[i as int]@);
            if self.fs.path_exists(ps[i].as_str()) {
                let forms: Vec<String> = path_variants(ps[i].as_str());
                assert(forms.deep_view()[0] == forms@[0]@);
                push_new(out, forms[0].clone());
                proof {
                    acc = before.push(ps@[i as int]@);
                    assert(acc.drop_last() =~= before);
                }
            }
            assert(acc + existing(all.take(i as int), disk) =~= before + existing(now, disk));
        }
        assert(acc =~= done + existing(all, disk));
    }

    /// Offers those of the candidates that exist in the directory `dir`, the last one first.
    fn offer_existing_in(
        &self,
        ps: &Vec<String>,
        dir: &str,
        out: &mut Vec<String>,
        Ghost(done): Ghost<Seq<Seq<char>>>,
    )
        requires
            old(out).deep_view() == text::dedup(done),
        ensures
            final(out).deep_view() == text::dedup(
                done + existing_in(ps.deep_view(), dir@, self@.cwd, self@.disk),
            ),
    {
        let ghost all = ps.deep_view();
        let ghost disk = self@.disk;
        let ghost cwd = self@.cwd;
        let ghost mut acc: Seq<Seq<char>> = done;
        let mut i: usize = ps.len();
        assert(all.take(i as int) =~= all);
        while i > 0
            invariant
                i <= ps@.len(),
                all == ps.deep_view(),
                disk == self@.disk,
                cwd == self@.cwd,
                acc + existing_in(all.take(i as int), dir@, cwd, disk) == done + existing_in(
                    all,
                    dir@,
                    cwd,
                    disk,
                ),
                out.deep_view() == text::dedup(acc),
            decreases i,
        {
            let ghost now = all.take(i as int);
            let ghost before = acc;
            i = i - 1;
            assert(now.drop_last() =~= all.take(i as int));
            assert(now.last() == ps@[i as int]@);
            if exists_at(ps[i].as_str(), dir, self.fs) {
                let p: String = rebase_path(ps[i].as_str(), dir, self.cwd);
                proof {
                    acc = before.push(p@);
                    assert(acc.drop_last() =~= before);
                }
                push_new(out, p);
            }
            assert(acc + existing_in(all.take(i as int), dir@, cwd, disk) =~= before + existing_in(
                now,
                dir@,
                cwd,
                disk,
            ));
        }
        assert(acc =~= done + existing_in(all, dir@, cwd, disk));
    }

    /// Offers the paths of all lines, those of later lines first, each once.
    pub fn collect_offers(&self, prompts: &Vec<usize>, dirs: &Vec<String>) -> (r: Vec<String>)
        requires
            prompts@.len() == self@.prompts().len(),
            dirs@.len() == prompts@.len(),
            forall|k: int|
                0 <= k < prompts@.len() ==> #[trigger] prompts@[k] == self@.prompts()[k],
            forall|k: int| 0 <= k < dirs@.len() ==> (#[trigger] dirs@[k])@ == self@.section_dir(k),
        ensures
            r.deep_view() == self@.harvest(),
    {
        let mut out: Vec<String> = Vec::new();
        let mut i: usize = self.lines.len();
        assert(self@.offers_from(i as int) =~= Seq::<Seq<char>>::empty());
        assert(out.deep_view() =~= text::dedup(self@.offers_from(i as int)));
        while i > 0
            invariant
                i <= self.lines@.len(),
                prompts@.len() == self@.prompts().len(),
                dirs@.len() == prompts@.len(),
                forall|k: int|
                    0 <= k < prompts@.len() ==> #[trigger] prompts@[k] == self@.prompts()[k],
                forall|k: int|
                    0 <= k < dirs@.len() ==> (#[trigger] dirs@[k])@ == self@.section_dir(k),
                out.deep_view() == text::dedup(self@.offers_from(i as int)),
            decreases i,
        {
            let ghost done = self@.offers_from(i as int);
            i = i - 1;
            let line: &str = self.lines[i].as_str();
            assert(self@.lines[i as int] == line@);
            let dir: &str = self.find_line_dir(i, prompts, dirs);
            let mut abs: Vec<String> = extract_absolute(line);
            append_all(&mut abs, extract_absolute_greedy(line, self.fs));
            self.offer_existing(&abs, &mut out, Ghost(done));
            let ghost with_abs = done + self@.absolute_offers(i as int);
            let rel: Vec<String> = extract_relative(line);
            self.offer_existing_in(&rel, dir, &mut out, Ghost(with_abs));
            let ghost with_rel = with_abs + self@.relative_offers(i as int);
            if self.literals.len() > 0 {
                let dot: Vec<String> = extract_dotwords(line);
                self.offer_existing_in(&dot, dir, &mut out, Ghost(with_rel));
            }
            assert(self@.lits.len() == self.literals@.len());
            assert(with_rel + self@.dotword_offers(i as int) =~= self@.offers_from(i as int));
            assert(self@.dotword_offers(i as int).len() == 0 ==> with_rel =~= self@.offers_from(
                i as int,
            ));
        }
        out
    }
}

/// A list stays as long as it is when it is extended.
pub proof fn lemma_extended(dirs: Seq<Seq<char>>, more: Seq<Seq<char>>)
    ensures
        extended(dirs, more).len() >= dirs.len(),
    decreases more.len(),
{
    if more.len() > 0 {
        lemma_extended(dirs, more.drop_last());
    }
}

/// The literals of a prompt format; none where there is no prompt.
pub open spec fn literals_of(prompt: Option<Seq<char>>) -> Seq<Seq<char>> {
    match prompt {
        Some(p) => prompt::literals(p),
        None => Seq::<Seq<char>>::empty(),
    }
}

/// The paths in the scrollback that exist, as they are written in `cwd`, the latest first.
///
/// Without a prompt format all relative paths are read in `cwd`, and bare file names are left out.
pub fn run_harvest<F: Filesystem + ?Sized>(
    lines: Vec<String>,
    cwd: String,
    prompt: Option<String>,
    cwd_log: Vec<(String, String)>,
    env: &Vars,
    fs: &F,
) -> (r: Vec<String>)
    ensures
        r.deep_view() == (Session {
            lines: lines.deep_view(),
            cwd: cwd@,
            lits: literals_of(
                match prompt {
                    Some(p) => Some(p@),
                    None => None,
                },
            ),
            log: cwd_log.deep_view(),
            env: env@,
            disk: fs.disk(),
        }).harvest(),
{
    let storage: Vec<String> = match &prompt {
        Some(p) => prompt_literals(p.as_str()),
        None => Vec::new(),
    };
    let mut literals: Vec<&str> = Vec::new();
    let mut i: usize = 0;
    while i < storage.len()
        invariant
            i <= storage@.len(),
            literals.deep_view() == storage.deep_view().take(i as int),
        decreases storage@.len() - i,
    {
        let ghost before = literals.deep_view();
        literals.push(storage[i].as_str());
        i = i + 1;
        assert(literals.deep_view() =~= before.push(storage@[i - 1]@));
        assert(literals.deep_view() =~= storage.deep_view().take(i as int));
    }
    assert(literals.deep_view() =~= literals_of(
        match prompt {
            Some(p) => Some(p@),
            None => None,
        },
    ));
    let input = Input {
        lines: &lines,
        cwd: cwd.as_str(),
        literals: &literals,
        log: &cwd_log,
        env,
        fs,
    };
    let prompts: Vec<usize> = input.find_prompts();
    let undone: Vec<String> = input.undo_dirs(&prompts);
    let candidates: Vec<Vec<String>> = input.section_candidates(&prompts, &undone);
    let dirs: Vec<String> = input.section_dirs(&prompts, &candidates);
    input.collect_offers(&prompts, &dirs)
}

// ---------------------------------------------------------------------------------------------
// Laws: which prompts and which entries
// ---------------------------------------------------------------------------------------------

proof fn lemma_prompt_positions(lines: Seq<Seq<char>>, lits: Seq<Seq<char>>)
    ensures
        forall|k: int|
            0 <= k < prompt_positions(lines, lits).len() ==> 0 <= #[trigger] prompt_positions(
                lines,
                lits,
            )[k] < lines.len() && prompt::prompt_line(
                lines[prompt_positions(lines, lits)[k]],
                lits,
            ),
        forall|k: int, m: int|
            0 <= k < m < prompt_positions(lines, lits).len() ==> prompt_positions(lines, lits)[k]
                > prompt_positions(lines, lits)[m],
        forall|i: int|
            0 <= i < lines.len() && prompt::prompt_line(#[trigger] lines[i], lits)
                ==> prompt_positions(lines, lits).contains(i),
    decreases lines.len(),
{
    if lines.len() > 0 {
        let d = lines.drop_last();
        let n = lines.len() - 1;
        let front = prompt_positions(d, lits);
        let all = prompt_positions(lines, lits);
        lemma_prompt_positions(d, lits);
        let shift: int = if prompt::prompt_line(lines.last(), lits) {
            1
        } else {
            0
        };
        assert forall|k: int| 0 <= k < all.len() implies 0 <= #[trigger] all[k] < lines.len()
            && prompt::prompt_line(lines[all[k]], lits) by {
            if k >= shift {
                assert(all[k] == front[k - shift]);
                assert(lines[all[k]] == d[front[k - shift]]);
            }
        }
        assert forall|k: int, m: int| 0 <= k < m < all.len() implies all[k] > all[m] by {
            assert(all[m] == front[m - shift]);
            if k >= shift {
                assert(all[k] == front[k - shift]);
            }
        }
        assert forall|i: int|
            0 <= i < lines.len() && prompt::prompt_line(#[trigger] lines[i], lits) implies all.contains(
            i,
        ) by {
            if i < n {
                assert(d[i] == lines[i]);
                let k = choose|k: int| 0 <= k < front.len() && front[k] == i;
                assert(all[k + shift] == i);
            } else {
                assert(all[0] == i);
            }
        }
    }
}

/// The prompts tracked are the last ones in the lines, no more than twenty, the last one first.
pub proof fn law_last_prompts_are_tracked(s: Session)
    ensures
        s.prompts().len() <= 20,
        forall|k: int|
            0 <= k < s.prompts().len() ==> 0 <= #[trigger] s.prompts()[k] < s.lines.len()
                && prompt::prompt_line(s.prompt_text(k), s.lits),
        forall|k: int, m: int|
            0 <= k < m < s.prompts().len() ==> s.prompts()[k] > s.prompts()[m],
        forall|i: int|
            0 <= i < s.lines.len() && prompt::prompt_line(#[trigger] s.lines[i], s.lits)
                && !s.prompts().contains(i) ==> s.prompts().len() == 20 && i
                < s.prompts().last(),
{
    let all = prompt_positions(s.lines, s.lits);
    let ps = s.prompts();
    lemma_prompt_positions(s.lines, s.lits);
    assert(forall|k: int| 0 <= k < ps.len() ==> #[trigger] ps[k] == all[k]);
    assert forall|i: int|
        0 <= i < s.lines.len() && prompt::prompt_line(#[trigger] s.lines[i], s.lits)
            && !ps.contains(i) implies ps.len() == TRACKED_PROMPTS && i < ps.last() by {
        let k = choose|k: int| 0 <= k < all.len() && all[k] == i;
        if k < ps.len() {
            assert(ps[k] == i);
        }
        assert(ps.last() == all[ps.len() - 1]);
    }
}

/// The entry of the log that a line shows is the last one that it shows.
pub proof fn law_last_entry_is_taken(
    line: Seq<char>,
    log: Seq<(Seq<char>, Seq<char>)>,
    n: int,
)
    ensures
        match last_entry(line, log, n) {
            Some(j) => 0 <= j < n && shows_command(line, log[j].1) && (forall|i: int|
                j < i < n ==> !shows_command(line, #[trigger] log[i].1)),
            None => forall|i: int| 0 <= i < n ==> !shows_command(line, #[trigger] log[i].1),
        },
    decreases n,
{
    if n > 0 && !shows_command(line, log[n - 1].1) {
        law_last_entry_is_taken(line, log, n - 1);
    }
}

/// What is left of the log for an earlier prompt lies before what was matched.
proof fn lemma_log_left(s: Session, k: int, m: int)
    requires
        0 <= k < m,
    ensures
        0 <= s.log_left(k) <= s.log.len(),
        0 <= s.log_left(m) <= s.log_left(k),
        s.entry(k) matches Some(j) ==> s.log_left(m) <= j,
    decreases m,
{
    law_last_entry_is_taken(s.prompt_text(m - 1), s.log, s.log_left(m - 1));
    if k < m - 1 {
        lemma_log_left(s, k, m - 1);
    } else {
        lemma_log_left_range(s, k);
    }
}

proof fn lemma_log_left_range(s: Session, k: int)
    requires
        0 <= k,
    ensures
        0 <= s.log_left(k) <= s.log.len(),
    decreases k,
{
    if k > 0 {
        lemma_log_left_range(s, k - 1);
        law_last_entry_is_taken(s.prompt_text(k - 1), s.log, s.log_left(k - 1));
    }
}

/// Prompts are matched to entries of the log in their order: an earlier prompt gets an earlier
/// entry, and no entry is taken twice.
pub proof fn law_entries_keep_order(s: Session, k: int, m: int)
    requires
        0 <= k < m < s.prompts().len(),
        s.entry(k) is Some,
        s.entry(m) is Some,
    ensures
        0 <= s.entry(m)->0 < s.entry(k)->0 < s.log.len(),
{
    lemma_log_left(s, k, m);
    law_last_entry_is_taken(s.prompt_text(k), s.log, s.log_left(k));
    law_last_entry_is_taken(s.prompt_text(m), s.log, s.log_left(m));
}

// ---------------------------------------------------------------------------------------------
// Laws: which directory
// ---------------------------------------------------------------------------------------------

/// Whether the command of prompt `k`, given in the directory `before`, left the shell in `after`, as
/// far as its line shows: a `cd` led down to it, or there was none.
pub open spec fn led(s: Session, k: int, before: Seq<char>, after: Seq<char>) -> bool {
    match prompt::cd_target(s.prompt_text(k)) {
        Some(t) => cd::leads_down(cd::unquoted(t)) && path::components(after) == path::components(
            path::join(before, cd::unquoted(t)),
        ),
        None => path::components(after) == path::components(before),
    }
}

/// The changes of directory are walked back: where the commands were given in the directories
/// `dirs`, the last one first, and each led from its directory to the next, those very directories
/// are found.
pub proof fn law_history_is_walked_back(s: Session, dirs: Seq<Seq<char>>, k: int)
    requires
        0 <= k < dirs.len(),
        forall|j: int| 0 <= j < dirs.len() ==> path::components(#[trigger] dirs[j]).len() > 0,
        forall|j: int|
            0 <= j < dirs.len() ==> led(
                s,
                j,
                #[trigger] dirs[j],
                if j == 0 {
                    s.cwd
                } else {
                    dirs[j - 1]
                },
            ),
    ensures
        path::components(s.undone_dir(k)) == path::components(dirs[k]),
    decreases k,
{
    if k > 0 {
        law_history_is_walked_back(s, dirs, k - 1);
    }
    let after = s.undone_dir(k - 1);
    assert(path::components(dirs[k]).len() > 0);
    match prompt::cd_target(s.prompt_text(k)) {
        Some(t) => {
            cd::law_undo_gives_directory_before(dirs[k], t, after);
        },
        None => {},
    }
}

proof fn lemma_extended_members(dirs: Seq<Seq<char>>, more: Seq<Seq<char>>, k: int)
    requires
        0 <= k < extended(dirs, more).len(),
    ensures
        dirs.contains(extended(dirs, more)[k]) || more.contains(extended(dirs, more)[k]),
    decreases more.len(),
{
    if more.len() > 0 {
        let d = more.drop_last();
        let e = extended(dirs, d);
        if k < e.len() {
            lemma_extended_members(dirs, d, k);
            if d.contains(e[k]) {
                let j = choose|j: int| 0 <= j < d.len() && d[j] == e[k];
                assert(more[j] == e[k]);
            }
        } else {
            assert(more[more.len() - 1] == extended(dirs, more)[k]);
        }
    } else {
        assert(dirs[k] == extended(dirs, more)[k]);
    }
}

proof fn lemma_extended_front(dirs: Seq<Seq<char>>, more: Seq<Seq<char>>)
    ensures
        dirs.is_prefix_of(extended(dirs, more)),
    decreases more.len(),
{
    if more.len() > 0 {
        lemma_extended_front(dirs, more.drop_last());
    }
}

/// The directory of a section is the one in which its command was given or one that the command
/// speaks of, and more of the relative paths behind the prompt exist in no other.
pub proof fn law_section_dir_wins(s: Session, k: int)
    requires
        0 <= k < s.prompts().len(),
    ensures
        s.candidates(k).len() > 0,
        s.candidates(k)[0] == s.tracked_dir(k),
        s.candidates(k).contains(s.section_dir(k)),
        forall|j: int|
            0 <= j < s.candidates(k).len() ==> cd::score(
                #[trigger] s.candidates(k)[j],
                rel_paths(s.lines, s.prompts()[k], s.section_end(k)),
                s.disk,
            ) <= cd::score(
                s.section_dir(k),
                rel_paths(s.lines, s.prompts()[k], s.section_end(k)),
                s.disk,
            ),
{
    let first = seq![s.tracked_dir(k)];
    let more = cd::dirs_in(s.command(k), s.tracked_dir(k), s.env, s.disk);
    let rels = rel_paths(s.lines, s.prompts()[k], s.section_end(k));
    lemma_extended_front(first, more);
    assert(first[0] == s.candidates(k)[0]);
    cd::law_best_wins(s.candidates(k), rels, s.disk);
    assert(s.candidates(k)[cd::best_index(s.candidates(k), rels, s.disk)] == s.section_dir(k));
}

proof fn lemma_undone_dir_absolute(s: Session, k: int)
    requires
        path::absolute(s.cwd),
    ensures
        path::absolute(s.undone_dir(k)),
    decreases k + 1,
{
    if k >= 0 {
        lemma_undone_dir_absolute(s, k - 1);
        let line = s.prompt_text(k);
        let after = s.undone_dir(k - 1);
        match prompt::cd_target(line) {
            Some(t) => match cd::undone(t, after) {
                Some(p) => {
                    cd::law_undone_directory_leads_there(t, after);
                },
                None => match prompt::dirname_in(line) {
                    Some(n) => {
                        if !path::absolute(n) {
                            path::lemma_join_components(after, n);
                        }
                    },
                    None => {},
                },
            },
            None => {},
        }
    }
}

proof fn lemma_dir_from_absolute(s: Session, i: int, k: int)
    requires
        0 <= k,
        path::absolute(s.cwd),
        cd::home_is_absolute(s.env),
        forall|j: int| 0 <= j < s.log.len() ==> path::absolute(#[trigger] s.log[j].0),
    ensures
        path::absolute(s.dir_from(i, k)),
    decreases s.prompts().len() - k,
{
    if k < s.prompts().len() {
        if i >= s.prompts()[k] {
            let base = s.tracked_dir(k);
            lemma_undone_dir_absolute(s, k);
            lemma_log_left_range(s, k);
            law_last_entry_is_taken(s.prompt_text(k), s.log, s.log_left(k));
            assert(path::absolute(base));
            law_section_dir_wins(s, k);
            let d = s.section_dir(k);
            let j = choose|j: int| 0 <= j < s.candidates(k).len() && s.candidates(k)[j] == d;
            let first = seq![base];
            let more = cd::dirs_in(s.command(k), base, s.env, s.disk);
            lemma_extended_members(first, more, j);
            if more.contains(d) {
                let m = choose|m: int| 0 <= m < more.len() && more[m] == d;
                cd::law_dirs_are_absolute(s.command(k), base, s.env, s.disk, m);
            } else {
                let m = choose|m: int| 0 <= m < first.len() && first[m] == d;
                assert(d == base);
            }
        } else {
            lemma_dir_from_absolute(s, i, k + 1);
        }
    }
}

/// The directory of every line is absolute, if the present directory is, those in the log are, and
/// the home directory where it is known.
pub proof fn law_line_dirs_are_absolute(s: Session, i: int)
    requires
        path::absolute(s.cwd),
        cd::home_is_absolute(s.env),
        forall|j: int| 0 <= j < s.log.len() ==> path::absolute(#[trigger] s.log[j].0),
    ensures
        path::absolute(s.line_dir(i)),
{
    lemma_dir_from_absolute(s, i, 0);
}

// ---------------------------------------------------------------------------------------------
// Laws: which paths
// ---------------------------------------------------------------------------------------------

/// [`existing`] lists those of the paths that exist.
proof fn lemma_existing(ps: Seq<Seq<char>>, disk: fs::Disk, p: Seq<char>)
    ensures
        existing(ps, disk).contains(p) <==> ps.contains(p) && disk.paths.contains(p),
    decreases ps.len(),
{
    if ps.len() > 0 {
        let d = ps.drop_last();
        let e = existing(d, disk);
        lemma_existing(d, disk, p);
        lemma_contains_drop_last(ps, p);
        if disk.paths.contains(ps.last()) {
            lemma_contains_after_first(ps.last(), e, p);
        }
    }
}

proof fn lemma_contains_drop_last(ps: Seq<Seq<char>>, p: Seq<char>)
    requires
        ps.len() > 0,
    ensures
        ps.contains(p) <==> ps.drop_last().contains(p) || p == ps.last(),
{
    let d = ps.drop_last();
    if ps.contains(p) && p != ps.last() {
        let i = choose|i: int| 0 <= i < ps.len() && ps[i] == p;
        assert(d[i] == p);
    }
    if d.contains(p) {
        let i = choose|i: int| 0 <= i < d.len() && d[i] == p;
        assert(ps[i] == p);
    }
    assert(ps[ps.len() - 1] == ps.last());
}

proof fn lemma_contains_after_first(first: Seq<char>, rest: Seq<Seq<char>>, p: Seq<char>)
    ensures
        (seq![first] + rest).contains(p) <==> rest.contains(p) || p == first,
{
    let all = seq![first] + rest;
    if all.contains(p) && p != first {
        let i = choose|i: int| 0 <= i < all.len() && all[i] == p;
        assert(rest[i - 1] == p);
    }
    if rest.contains(p) {
        let i = choose|i: int| 0 <= i < rest.len() && rest[i] == p;
        assert(all[i + 1] == p);
    }
    assert(all[0] == first);
}

/// [`existing_in`] lists candidates that exist in the directory, written for the present one.
proof fn lemma_existing_in(
    ps: Seq<Seq<char>>,
    dir: Seq<char>,
    cwd: Seq<char>,
    disk: fs::Disk,
    p: Seq<char>,
)
    ensures
        existing_in(ps, dir, cwd, disk).contains(p) <==> exists|j: int|
            0 <= j < ps.len() && fs::present_at(#[trigger] ps[j], dir, disk) && p == path::rebased(
                ps[j],
                dir,
                cwd,
            ),
    decreases ps.len(),
{
    if ps.len() > 0 {
        let d = ps.drop_last();
        let e = existing_in(d, dir, cwd, disk);
        lemma_existing_in(d, dir, cwd, disk, p);
        if e.contains(p) {
            let j = choose|j: int|
                0 <= j < d.len() && fs::present_at(#[trigger] d[j], dir, disk) && p
                    == path::rebased(d[j], dir, cwd);
            assert(fs::present_at(ps[j], dir, disk));
        }
        if fs::present_at(ps.last(), dir, disk) {
            lemma_contains_after_first(path::rebased(ps.last(), dir, cwd), e, p);
            assert(fs::present_at(ps[ps.len() - 1], dir, disk));
        }
        if exists|j: int|
            0 <= j < ps.len() && fs::present_at(#[trigger] ps[j], dir, disk) && p == path::rebased(
                ps[j],
                dir,
                cwd,
            ) {
            let j = choose|j: int|
                0 <= j < ps.len() && fs::present_at(#[trigger] ps[j], dir, disk) && p
                    == path::rebased(ps[j], dir, cwd);
            if j < d.len() {
                assert(fs::present_at(d[j], dir, disk));
            }
        }
    }
}

proof fn lemma_contains_either(a: Seq<Seq<char>>, b: Seq<Seq<char>>, p: Seq<char>)
    ensures
        (a + b).contains(p) <==> a.contains(p) || b.contains(p),
{
    let all = a + b;
    if all.contains(p) {
        let i = choose|i: int| 0 <= i < all.len() && all[i] == p;
        if i < a.len() {
            assert(a[i] == p);
        } else {
            assert(b[i - a.len()] == p);
        }
    }
    if a.contains(p) {
        let i = choose|i: int| 0 <= i < a.len() && a[i] == p;
        assert(all[i] == p);
    }
    if b.contains(p) {
        let i = choose|i: int| 0 <= i < b.len() && b[i] == p;
        assert(all[a.len() + i] == p);
    }
}

proof fn lemma_offers_from(s: Session, i: int, p: Seq<char>)
    requires
        0 <= i,
    ensures
        s.offers_from(i).contains(p) <==> exists|k: int|
            i <= k < s.lines.len() && #[trigger] s.offers(k).contains(p),
    decreases s.lines.len() - i,
{
    if i < s.lines.len() {
        lemma_offers_from(s, i + 1, p);
        lemma_contains_either(s.offers_from(i + 1), s.offers(i), p);
        if s.offers(i).contains(p) {
            assert(i <= i < s.lines.len() && s.offers(i).contains(p));
        }
    }
}

/// A path is in the result just where some line offers it; and it is there once.
pub proof fn law_result_is_what_lines_offer(s: Session, p: Seq<char>)
    ensures
        s.harvest().no_duplicates(),
        s.harvest().contains(p) <==> exists|i: int|
            0 <= i < s.lines.len() && #[trigger] s.offers(i).contains(p),
{
    text::lemma_dedup(s.offers_from(0));
    lemma_offers_from(s, 0, p);
}

/// An absolute path in a line is in the result if it exists: one that stands there as a token, or
/// one that words of the line make when they are joined.
pub proof fn law_absolute_path_is_offered(s: Session, i: int, p: Seq<char>)
    requires
        0 <= i < s.lines.len(),
        parse::absolutes(s.lines[i]).contains(p) || parse::greedy(s.lines[i], s.disk).contains(p),
        s.disk.paths.contains(p),
    ensures
        s.harvest().contains(p),
{
    let a = parse::absolutes(s.lines[i]);
    let g = parse::greedy(s.lines[i], s.disk);
    lemma_contains_either(a, g, p);
    lemma_existing(a + g, s.disk, p);
    lemma_contains_either(s.absolute_offers(i), s.relative_offers(i), p);
    lemma_contains_either(
        s.absolute_offers(i) + s.relative_offers(i),
        s.dotword_offers(i),
        p,
    );
    assert(s.offers(i).contains(p));
    law_result_is_what_lines_offer(s, p);
}

/// A relative path in a line is in the result, written for the present directory, if it exists in
/// the directory of the line.
pub proof fn law_relative_path_is_offered(s: Session, i: int, c: Seq<char>)
    requires
        0 <= i < s.lines.len(),
        parse::relatives(s.lines[i]).contains(c),
        fs::present_at(c, s.line_dir(i), s.disk),
    ensures
        s.harvest().contains(path::rebased(c, s.line_dir(i), s.cwd)),
{
    let p = path::rebased(c, s.line_dir(i), s.cwd);
    let r = parse::relatives(s.lines[i]);
    let j = choose|j: int| 0 <= j < r.len() && r[j] == c;
    assert(fs::present_at(r[j], s.line_dir(i), s.disk));
    lemma_existing_in(r, s.line_dir(i), s.cwd, s.disk, p);
    lemma_contains_either(s.absolute_offers(i), s.relative_offers(i), p);
    lemma_contains_either(
        s.absolute_offers(i) + s.relative_offers(i),
        s.dotword_offers(i),
        p,
    );
    assert(s.offers(i).contains(p));
    law_result_is_what_lines_offer(s, p);
}

/// With a prompt, a bare file name in a line is in the result, written for the present directory,
/// if it exists in the directory of the line.
pub proof fn law_file_name_is_offered(s: Session, i: int, c: Seq<char>)
    requires
        0 <= i < s.lines.len(),
        s.lits.len() > 0,
        parse::dotwords(s.lines[i]).contains(c),
        fs::present_at(c, s.line_dir(i), s.disk),
    ensures
        s.harvest().contains(path::rebased(c, s.line_dir(i), s.cwd)),
{
    let p = path::rebased(c, s.line_dir(i), s.cwd);
    let r = parse::dotwords(s.lines[i]);
    let j = choose|j: int| 0 <= j < r.len() && r[j] == c;
    assert(fs::present_at(r[j], s.line_dir(i), s.disk));
    lemma_existing_in(r, s.line_dir(i), s.cwd, s.disk, p);
    lemma_contains_either(
        s.absolute_offers(i) + s.relative_offers(i),
        s.dotword_offers(i),
        p,
    );
    assert(s.offers(i).contains(p));
    law_result_is_what_lines_offer(s, p);
}

/// What [`path::seen_from`] an absolute directory is never absolute.
proof fn lemma_seen_from_relative(p: Seq<char>, cwd: Seq<char>)
    requires
        path::absolute(p),
        path::absolute(cwd),
    ensures
        !path::absolute(path::seen_from(p, cwd)),
{
    let a = path::components(p);
    let c = path::components(cwd);
    if c.is_prefix_of(a) {
        assert(path::seen_from(p, cwd)[0] == '.');
    } else {
        let k = path::shared(c, a);
        let w = path::way(c, a);
        path::lemma_components_well_formed(p);
        path::lemma_components_well_formed(cwd);
        path::lemma_shared(c, a);
        path::lemma_shared(c.skip(1), a.skip(1));
        assert(k >= 1);
        let m = (c.len() - k) as nat;
        assert(path::dotdot().len() == 2 && path::dotdot()[0] == '.' && path::dotdot()[1] == '.');
        assert forall|i: int| 0 <= i < w.len() implies path::is_name(#[trigger] w[i]) by {
            if i < m {
                assert(w[i] == path::dotdot());
            } else {
                assert(w[i] == a[k + (i - m)]);
            }
        }
        path::law_spelling_reads_back(w);
        if w.len() > 0 {
            assert(path::is_name(w[0]));
            assert(path::root()[0] == '/');
            assert(w[0] != path::root());
        }
    }
}

proof fn lemma_rebased_exists(c: Seq<char>, dir: Seq<char>, s: Session)
    requires
        path::absolute(s.cwd),
        path::straight(path::components(s.cwd)),
        path::absolute(dir),
        fs::present_at(c, dir, s.disk),
    ensures
        ({
            let p = path::rebased(c, dir, s.cwd);
            if path::absolute(p) {
                s.disk.paths.contains(p)
            } else {
                fs::present_at(p, s.cwd, s.disk)
            }
        }),
{
    let place = path::join(dir, c);
    if !path::absolute(c) {
        path::lemma_join_components(dir, c);
    }
    path::law_normalized_is_normal(place);
    path::law_rebase_keeps_place(c, dir, s.cwd);
    lemma_seen_from_relative(path::normalized(place), s.cwd);
}

/// Every path in the result exists: an absolute one as it is written, a relative one when it is
/// read in the present directory. For a present directory that is absolute, with no `..` behind a
/// name, where the directories of the lines are absolute.
pub proof fn law_result_exists(s: Session, p: Seq<char>)
    requires
        path::absolute(s.cwd),
        path::straight(path::components(s.cwd)),
        forall|i: int| 0 <= i < s.lines.len() ==> path::absolute(#[trigger] s.line_dir(i)),
        s.harvest().contains(p),
    ensures
        if path::absolute(p) {
            s.disk.paths.contains(p)
        } else {
            fs::present_at(p, s.cwd, s.disk)
        },
{
    law_result_is_what_lines_offer(s, p);
    let i = choose|i: int| 0 <= i < s.lines.len() && #[trigger] s.offers(i).contains(p);
    let line = s.lines[i];
    let dir = s.line_dir(i);
    let a = parse::absolutes(line);
    let g = parse::greedy(line, s.disk);
    lemma_contains_either(s.absolute_offers(i), s.relative_offers(i), p);
    lemma_contains_either(
        s.absolute_offers(i) + s.relative_offers(i),
        s.dotword_offers(i),
        p,
    );
    lemma_existing(a + g, s.disk, p);
    if s.absolute_offers(i).contains(p) {
        lemma_contains_either(a, g, p);
        if a.contains(p) {
            let k = choose|k: int| 0 <= k < a.len() && a[k] == p;
            parse::law_absolutes_are_absolute(line, k);
        } else {
            let k = choose|k: int| 0 <= k < g.len() && g[k] == p;
            parse::law_greedy_finds_exist(line, s.disk, k);
        }
    } else {
        let r = if s.relative_offers(i).contains(p) {
            parse::relatives(line)
        } else {
            parse::dotwords(line)
        };
        lemma_existing_in(r, dir, s.cwd, s.disk, p);
        let j = choose|j: int|
            0 <= j < r.len() && fs::present_at(#[trigger] r[j], dir, s.disk) && p == path::rebased(
                r[j],
                dir,
                s.cwd,
            );
        lemma_rebased_exists(r[j], dir, s);
    }
}

proof fn lemma_dedup_front(a: Seq<Seq<char>>, b: Seq<Seq<char>>)
    ensures
        text::dedup(a).is_prefix_of(text::dedup(a + b)),
    decreases b.len(),
{
    if b.len() == 0 {
        assert(a + b =~= a);
    } else {
        assert((a + b).drop_last() =~= a + b.drop_last());
        lemma_dedup_front(a, b.drop_last());
    }
}

proof fn lemma_later_first(s: Session, i: int, k: int)
    requires
        0 <= k <= i <= s.lines.len(),
    ensures
        text::dedup(s.offers_from(i)).is_prefix_of(text::dedup(s.offers_from(k))),
    decreases i - k,
{
    if k < i {
        lemma_later_first(s, i, k + 1);
        lemma_dedup_front(s.offers_from(k + 1), s.offers(k));
    }
}

/// The latest paths come first: what the lines from any line on offer is the front of the result.
pub proof fn law_latest_come_first(s: Session, i: int)
    requires
        0 <= i <= s.lines.len(),
    ensures
        text::dedup(s.offers_from(i)).is_prefix_of(s.harvest()),
{
    lemma_later_first(s, i, 0);
}

proof fn lemma_no_prompts(lines: Seq<Seq<char>>)
    ensures
        prompt_positions(lines, Seq::<Seq<char>>::empty()).len() == 0,
    decreases lines.len(),
{
    if lines.len() > 0 {
        lemma_no_prompts(lines.drop_last());
    }
}

/// Without a literal of a prompt, every line is read in the present directory, and bare file names
/// are left out.
pub proof fn law_without_prompt(s: Session, i: int)
    requires
        s.lits.len() == 0,
    ensures
        s.prompts().len() == 0,
        s.line_dir(i) == s.cwd,
        s.dotword_offers(i).len() == 0,
{
    assert(s.lits =~= Seq::<Seq<char>>::empty());
    lemma_no_prompts(s.lines);
}

proof fn lemma_offers_without_prompt(s: Session, t: Session, i: int)
    requires
        s.lits.len() == 0,
        t.lits.len() == 0,
        s.lines == t.lines,
        s.cwd == t.cwd,
        s.disk == t.disk,
    ensures
        s.offers_from(i) == t.offers_from(i),
    decreases s.lines.len() - i,
{
    if i < s.lines.len() {
        lemma_offers_without_prompt(s, t, i + 1);
        law_without_prompt(s, i);
        law_without_prompt(t, i);
    }
}

/// Without a literal of a prompt, neither the log nor the environment makes a difference.
pub proof fn law_log_needs_prompt(s: Session, t: Session)
    requires
        s.lits.len() == 0,
        t.lits.len() == 0,
        s.lines == t.lines,
        s.cwd == t.cwd,
        s.disk == t.disk,
    ensures
        s.harvest() == t.harvest(),
{
    lemma_offers_without_prompt(s, t, 0);
}

// ---------------------------------------------------------------------------------------------
// What the operations give: directories of prompts
// ---------------------------------------------------------------------------------------------

/// The directory before a command: without a `cd` on the line it is the directory after it; with
/// one that can be undone it is what undoing gives; and otherwise it is the directory that the prompt
/// names below, if the disk has that as a directory, and else the directory after it.
pub proof fn law_directory_before_exists(line: Seq<char>, after: Seq<char>, disk: fs::Disk)
    ensures
        prompt::cd_target(line) is None ==> dir_before(line, after, disk) == after,
        prompt::cd_target(line) matches Some(t) ==> cd::undone(t, after) matches Some(p)
            ==> dir_before(line, after, disk) == p,
        prompt::cd_target(line) matches Some(t) ==> cd::undone(t, after) is None ==> {
            &&& dir_before(line, after, disk) == after || disk.dirs.contains(
                dir_before(line, after, disk),
            )
            &&& prompt::dirname_in(line) is None ==> dir_before(line, after, disk) == after
            &&& prompt::dirname_in(line) matches Some(n) ==> {
                let below = path::join(after, n);
                &&& disk.dirs.contains(below) ==> dir_before(line, after, disk) == below
                &&& !disk.dirs.contains(below) ==> dir_before(line, after, disk) == after
            }
        },
{
}

/// The directories of the prompts are found one from the other, from the present directory back:
/// each is the directory before the command of its prompt, where the one of the later prompt is the
/// directory after it.
pub proof fn law_directories_follow_one_another(s: Session, k: int)
    requires
        0 <= k < s.prompts().len(),
    ensures
        ({
            let line = s.lines[s.prompts()[k]];
            let after = if k == 0 {
                s.cwd
            } else {
                s.undone_dir(k - 1)
            };
            let found = s.undone_dir(k);
            &&& prompt::cd_target(line) is None ==> found == after
            &&& prompt::cd_target(line) matches Some(t) ==> cd::undone(t, after) matches Some(p)
                ==> found == p
            &&& prompt::cd_target(line) matches Some(t) ==> cd::undone(t, after) is None ==> {
                &&& found == after || s.disk.dirs.contains(found)
                &&& prompt::dirname_in(line) is None ==> found == after
                &&& prompt::dirname_in(line) matches Some(n) ==> found == (if s.disk.dirs.contains(
                    path::join(after, n),
                ) {
                    path::join(after, n)
                } else {
                    after
                })
            }
        }),
{
    assert(s.undone_dir(-1) == s.cwd);
}

/// A line shows a command just where it is the command, or ends in a space and the command.
pub proof fn law_command_shown_at_end(line: Seq<char>, cmd: Seq<char>)
    ensures
        shows_command(line, cmd) <==> cmd.len() > 0 && (line == cmd || exists|a: Seq<char>|
            line == #[trigger] (a + seq![' '] + cmd)),
{
    if shows_command(line, cmd) {
        lemma_command_shown(line, cmd);
    }
    if cmd.len() > 0 && line == cmd {
        assert(line.subrange(0, line.len() as int) =~= cmd);
    }
    assert forall|a: Seq<char>| cmd.len() > 0 && line == #[trigger] (a + seq![' '] + cmd) implies
        shows_command(line, cmd) by {
        let n = a.len() as int + 1;
        assert(line.len() == n + cmd.len());
        assert(line.subrange(n, line.len() as int) =~= cmd);
        assert(line[n - 1] == ' ');
    }
}

proof fn lemma_command_shown(line: Seq<char>, cmd: Seq<char>)
    requires
        shows_command(line, cmd),
    ensures
        line == cmd || line == line.take(line.len() - cmd.len() - 1) + seq![' '] + cmd,
{
    let n = line.len() - cmd.len();
    assert(line.subrange(n, line.len() as int) == cmd);
    if n == 0 {
        assert(line =~= line.subrange(0, line.len() as int));
    } else {
        let whole = line.take(n - 1) + seq![' '] + cmd;
        assert forall|i: int| 0 <= i < line.len() implies line[i] == #[trigger] whole[i] by {
            if i >= n {
                assert(whole[i] == cmd[i - n]);
                assert(line.subrange(n, line.len() as int)[i - n] == line[i]);
            }
        }
        assert(line =~= whole);
    }
}

/// The entries left for a prompt are those before every entry that a later prompt took.
proof fn lemma_log_left_is_least(s: Session, k: int)
    requires
        0 <= k,
    ensures
        0 <= s.log_left(k) <= s.log.len(),
        forall|m: int| 0 <= m < k && (#[trigger] s.entry(m)) is Some ==> s.log_left(k) <= s.entry(
            m,
        )->0,
        s.log_left(k) == s.log.len() || exists|m: int|
            0 <= m < k && #[trigger] s.entry(m) == Some(s.log_left(k)),
    decreases k,
{
    if k > 0 {
        lemma_log_left_is_least(s, k - 1);
        law_last_entry_is_taken(s.prompt_text(k - 1), s.log, s.log_left(k - 1));
        match s.entry(k - 1) {
            Some(j) => {
                assert(s.log_left(k) == j);
            },
            None => {
                assert(s.log_left(k) == s.log_left(k - 1));
                if s.log_left(k) != s.log.len() {
                    let m = choose|m: int|
                        0 <= m < k - 1 && #[trigger] s.entry(m) == Some(s.log_left(k - 1));
                    assert(s.entry(m) == Some(s.log_left(k)));
                }
            },
        }
    }
}

/// The entry of the log for a prompt is the last one whose command its line shows, of those before
/// all entries of later prompts; where there is such an entry, the prompt has one.
pub proof fn law_entry_is_last_one_left(s: Session, k: int, j: int)
    requires
        0 <= k < s.prompts().len(),
    ensures
        s.entry(k) matches Some(e) ==> 0 <= e < s.log.len() && shows_command(
            s.lines[s.prompts()[k]],
            s.log[e].1,
        ) && (forall|m: int| 0 <= m < k && (#[trigger] s.entry(m)) is Some ==> e < s.entry(m)->0),
        0 <= j < s.log.len() && shows_command(s.lines[s.prompts()[k]], s.log[j].1) && (forall|m: int|
            0 <= m < k && (#[trigger] s.entry(m)) is Some ==> j < s.entry(m)->0) ==> s.entry(
            k,
        ) is Some && j <= s.entry(k)->0,
{
    lemma_log_left_is_least(s, k);
    law_last_entry_is_taken(s.prompt_text(k), s.log, s.log_left(k));
    if 0 <= j < s.log.len() && shows_command(s.prompt_text(k), s.log[j].1) && (forall|m: int|
        0 <= m < k && (#[trigger] s.entry(m)) is Some ==> j < s.entry(m)->0) {
        assert(j < s.log_left(k)) by {
            if s.log_left(k) != s.log.len() {
                let m = choose|m: int|
                    0 <= m < k && #[trigger] s.entry(m) == Some(s.log_left(k));
                assert(j < s.entry(m)->0);
            }
        }
        assert(shows_command(s.prompt_text(k), s.log[j].1));
    }
}

/// A prompt with an entry in the log has its directory and its command from there; one without has
/// the directory that was walked back to, and the command that its line shows.
pub proof fn law_log_comes_first(s: Session, k: int)
    requires
        0 <= k < s.prompts().len(),
    ensures
        s.entry(k) matches Some(e) ==> s.tracked_dir(k) == s.log[e].0 && s.command(k) == s.log[e].1,
        s.entry(k) is None ==> s.tracked_dir(k) == s.undone_dir(k) && s.command(k)
            == prompt::command_in(s.lines[s.prompts()[k]], s.lits),
{
}

// ---------------------------------------------------------------------------------------------
// What the operations give: directories of sections and lines
// ---------------------------------------------------------------------------------------------

proof fn lemma_extended_filter(first: Seq<char>, more: Seq<Seq<char>>)
    requires
        forall|i: int, j: int|
            0 <= i < j < more.len() ==> path::components(#[trigger] more[i]) != path::components(
                #[trigger] more[j],
            ),
    ensures
        extended(seq![first], more) == seq![first] + more.filter(
            |d: Seq<char>| path::components(d) != path::components(first),
        ),
    decreases more.len(),
{
    reveal(Seq::filter);
    let f = |d: Seq<char>| path::components(d) != path::components(first);
    if more.len() == 0 {
        assert(seq![first] + more.filter(f) =~= seq![first]);
    } else {
        let d = more.drop_last();
        let x = more.last();
        assert forall|i: int, j: int| 0 <= i < j < d.len() implies path::components(
            #[trigger] d[i],
        ) != path::components(#[trigger] d[j]) by {
            assert(d[i] == more[i] && d[j] == more[j]);
        }
        lemma_extended_filter(first, d);
        let e = extended(seq![first], d);
        assert(more[more.len() - 1] == x);
        assert(listed(e, x) <==> path::components(x) == path::components(first)) by {
            assert(e[0] == first);
            if listed(e, x) && path::components(x) != path::components(first) {
                let i = choose|i: int|
                    0 <= i < e.len() && path::components(#[trigger] e[i]) == path::components(x);
                assert(i > 0);
                let kept = d.filter(f);
                assert(e[i] == kept[i - 1]);
                assert(kept.contains(kept[i - 1]));
                d.lemma_filter_contains_rev(f, kept[i - 1]);
                let j = choose|j: int| 0 <= j < d.len() && d[j] == kept[i - 1];
                assert(more[j] == d[j]);
                assert(path::components(more[j]) != path::components(more[more.len() - 1]));
            }
        }
        assert(extended(seq![first], more) =~= seq![first] + more.filter(f));
    }
}

/// The candidates for a section are the directory of its prompt, and behind it those that its
/// command speaks of, as far as they are other directories; in their order.
pub proof fn law_candidates_are_directory_and_those_named(s: Session, k: int)
    requires
        0 <= k < s.prompts().len(),
    ensures
        s.candidates(k) == seq![s.tracked_dir(k)] + cd::dirs_in(
            s.command(k),
            s.tracked_dir(k),
            s.env,
            s.disk,
        ).filter(|d: Seq<char>| path::components(d) != path::components(s.tracked_dir(k))),
{
    let first = s.tracked_dir(k);
    let more = cd::dirs_in(s.command(k), first, s.env, s.disk);
    cd::law_dirs_are_directories(s.command(k), first, s.env, s.disk);
    assert forall|i: int, j: int| 0 <= i < j < more.len() implies path::components(
        #[trigger] more[i],
    ) != path::components(#[trigger] more[j]) by {
        path::law_normalized_is_spelled(more[i]);
        path::law_normalized_is_spelled(more[j]);
        assert(path::normalized(more[i]) == more[i]);
        assert(path::normalized(more[j]) == more[j]);
        assert(more[i] != more[j]);
    }
    lemma_extended_filter(first, more);
}

proof fn lemma_rel_paths_add(lines: Seq<Seq<char>>, a: int, b: int, c: int)
    requires
        a <= b <= c,
    ensures
        rel_paths(lines, a, c) == rel_paths(lines, a, b) + rel_paths(lines, b, c),
    decreases c - b,
{
    if b == c {
        assert(rel_paths(lines, b, c) =~= Seq::<Seq<char>>::empty());
        assert(rel_paths(lines, a, c) =~= rel_paths(lines, a, b) + rel_paths(lines, b, c));
    } else {
        lemma_rel_paths_add(lines, a, b, c - 1);
        assert(rel_paths(lines, a, c) =~= rel_paths(lines, a, b) + rel_paths(lines, b, c));
    }
}

/// What votes for the directory of a section is every relative path and every bare file name of its
/// lines, as often as it stands there, and nothing else.
pub proof fn law_relative_paths_and_names_vote(
    lines: Seq<Seq<char>>,
    a: int,
    b: int,
    c: int,
    p: Seq<char>,
)
    requires
        a <= b <= c,
    ensures
        rel_paths(lines, a, a).len() == 0,
        rel_paths(lines, a, a + 1) == parse::relatives(lines[a]) + parse::dotwords(lines[a]),
        rel_paths(lines, a, c) == rel_paths(lines, a, b) + rel_paths(lines, b, c),
        rel_paths(lines, a, b).contains(p) <==> exists|i: int|
            a <= i < b && (parse::relatives(#[trigger] lines[i]).contains(p) || parse::dotwords(
                lines[i],
            ).contains(p)),
{
    let none = Seq::<Seq<char>>::empty();
    assert(rel_paths(lines, a, a) =~= none);
    assert(none + parse::relatives(lines[a]) + parse::dotwords(lines[a]) =~= parse::relatives(
        lines[a],
    ) + parse::dotwords(lines[a]));
    lemma_rel_paths_add(lines, a, b, c);
    lemma_rel_paths_members(lines, a, b, p);
}

proof fn lemma_rel_paths_members(lines: Seq<Seq<char>>, a: int, b: int, p: Seq<char>)
    ensures
        rel_paths(lines, a, b).contains(p) <==> exists|i: int|
            a <= i < b && (parse::relatives(#[trigger] lines[i]).contains(p) || parse::dotwords(
                lines[i],
            ).contains(p)),
    decreases b - a,
{
    if a < b {
        lemma_rel_paths_members(lines, a, b - 1, p);
        let r = parse::relatives(lines[b - 1]);
        let d = parse::dotwords(lines[b - 1]);
        let front = rel_paths(lines, a, b - 1);
        lemma_contains_either(front, r, p);
        lemma_contains_either(front + r, d, p);
    }
}

/// The directory of a section is the first of its candidates in which most of the relative paths and
/// bare file names exist that stand from its prompt up to the next tracked one.
pub proof fn law_section_dir_is_first_best(s: Session, k: int)
    requires
        0 <= k < s.prompts().len(),
    ensures
        ({
            let end = if k == 0 {
                s.lines.len() as int
            } else {
                s.prompts()[k - 1]
            };
            let rels = rel_paths(s.lines, s.prompts()[k], end);
            let dirs = s.candidates(k);
            exists|j: int|
                0 <= j < dirs.len() && #[trigger] dirs[j] == s.section_dir(k) && (forall|m: int|
                    0 <= m < dirs.len() ==> cd::score(#[trigger] dirs[m], rels, s.disk)
                        <= cd::score(dirs[j], rels, s.disk)) && (forall|m: int|
                    0 <= m < j ==> cd::score(#[trigger] dirs[m], rels, s.disk) < cd::score(
                        dirs[j],
                        rels,
                        s.disk,
                    ))
        }),
{
    law_section_dir_wins(s, k);
    let rels = rel_paths(s.lines, s.prompts()[k], s.section_end(k));
    let dirs = s.candidates(k);
    cd::law_best_wins(dirs, rels, s.disk);
    let j = cd::best_index(dirs, rels, s.disk);
    assert(dirs[j] == s.section_dir(k));
}

proof fn lemma_dir_from_section(s: Session, i: int, m: int, k: int)
    requires
        0 <= m <= k < s.prompts().len(),
        s.prompts()[k] <= i,
        k > 0 ==> i < s.prompts()[k - 1],
    ensures
        s.dir_from(i, m) == s.section_dir(k),
    decreases k - m,
{
    law_last_prompts_are_tracked(s);
    if m < k {
        if m < k - 1 {
            assert(s.prompts()[m] > s.prompts()[k - 1]);
        }
        lemma_dir_from_section(s, i, m + 1, k);
    }
}

proof fn lemma_dir_from_none(s: Session, i: int, m: int)
    requires
        0 <= m,
        forall|k: int| 0 <= k < s.prompts().len() ==> i < #[trigger] s.prompts()[k],
    ensures
        s.dir_from(i, m) == s.cwd,
    decreases s.prompts().len() - m,
{
    if m < s.prompts().len() {
        assert(i < s.prompts()[m]);
        lemma_dir_from_none(s, i, m + 1);
    }
}

/// Every line is read in the directory of the section that it lies in: from a tracked prompt, its
/// own line with it, up to the next one; and in the present directory before all of them.
pub proof fn law_line_is_read_in_its_section(s: Session, i: int, k: int)
    ensures
        0 <= k < s.prompts().len() && s.prompts()[k] <= i && (k > 0 ==> i < s.prompts()[k - 1])
            ==> s.line_dir(i) == s.section_dir(k),
        (forall|m: int| 0 <= m < s.prompts().len() ==> i < #[trigger] s.prompts()[m])
            ==> s.line_dir(i) == s.cwd,
{
    if 0 <= k < s.prompts().len() && s.prompts()[k] <= i && (k > 0 ==> i < s.prompts()[k - 1]) {
        lemma_dir_from_section(s, i, 0, k);
    }
    if forall|m: int| 0 <= m < s.prompts().len() ==> i < #[trigger] s.prompts()[m] {
        lemma_dir_from_none(s, i, 0);
    }
}

// ---------------------------------------------------------------------------------------------
// What the operations give: the result
// ---------------------------------------------------------------------------------------------

proof fn lemma_existing_filter(ps: Seq<Seq<char>>, disk: fs::Disk)
    ensures
        existing(ps, disk) == ps.filter(|p: Seq<char>| disk.paths.contains(p)).reverse(),
    decreases ps.len(),
{
    reveal(Seq::filter);
    let f = |p: Seq<char>| disk.paths.contains(p);
    if ps.len() > 0 {
        lemma_existing_filter(ps.drop_last(), disk);
    }
    assert(existing(ps, disk) =~= ps.filter(f).reverse());
}

proof fn lemma_existing_in_filter(
    ps: Seq<Seq<char>>,
    dir: Seq<char>,
    cwd: Seq<char>,
    disk: fs::Disk,
)
    ensures
        existing_in(ps, dir, cwd, disk) == ps.filter(
            |c: Seq<char>| disk.paths.contains(path::normalized(path::join(dir, c))),
        ).map_values(|c: Seq<char>| path::rebased(c, dir, cwd)).reverse(),
    decreases ps.len(),
{
    reveal(Seq::filter);
    let f = |c: Seq<char>| disk.paths.contains(path::normalized(path::join(dir, c)));
    let g = |c: Seq<char>| path::rebased(c, dir, cwd);
    if ps.len() > 0 {
        lemma_existing_in_filter(ps.drop_last(), dir, cwd, disk);
    }
    assert(existing_in(ps, dir, cwd, disk) =~= ps.filter(f).map_values(g).reverse());
}

/// What a line offers, the last of each kind first: its absolute paths that exist, those found by
/// joining words as the last of them; then its relative paths that exist in its directory; then,
/// with a prompt, its bare file names that exist there; the latter two written for the present
/// directory.
pub proof fn law_line_offers_what_exists(s: Session, i: int)
    ensures
        ({
            let line = s.lines[i];
            let dir = s.line_dir(i);
            let cwd = s.cwd;
            let disk = s.disk;
            let absolute = (parse::absolutes(line) + parse::greedy(line, disk)).filter(
                |p: Seq<char>| disk.paths.contains(p),
            ).reverse();
            let relative = parse::relatives(line).filter(
                |c: Seq<char>| disk.paths.contains(path::normalized(path::join(dir, c))),
            ).map_values(|c: Seq<char>| path::rebased(c, dir, cwd)).reverse();
            let names = parse::dotwords(line).filter(
                |c: Seq<char>| disk.paths.contains(path::normalized(path::join(dir, c))),
            ).map_values(|c: Seq<char>| path::rebased(c, dir, cwd)).reverse();
            &&& s.lits.len() > 0 ==> s.offers(i) == absolute + relative + names
            &&& s.lits.len() == 0 ==> s.offers(i) == absolute + relative
        }),
{
    let line = s.lines[i];
    lemma_existing_filter(parse::absolutes(line) + parse::greedy(line, s.disk), s.disk);
    lemma_existing_in_filter(parse::relatives(line), s.line_dir(i), s.cwd, s.disk);
    lemma_existing_in_filter(parse::dotwords(line), s.line_dir(i), s.cwd, s.disk);
    if s.lits.len() == 0 {
        assert(s.offers(i) =~= s.absolute_offers(i) + s.relative_offers(i));
    }
}

proof fn lemma_offers_from_front(s: Session, i: int, k: int)
    requires
        0 <= k <= i <= s.lines.len(),
    ensures
        s.offers_from(i).is_prefix_of(s.offers_from(k)),
    decreases i - k,
{
    if k < i {
        lemma_offers_from_front(s, i, k + 1);
    }
}

/// Of two paths in the result the one that is offered first comes first: by a later line, or
/// further in front on the same line.
pub proof fn law_first_offered_comes_first(s: Session, i: int, a: int, q: Seq<char>)
    requires
        0 <= i < s.lines.len(),
        0 <= a < s.offers(i).len(),
        s.harvest().contains(q),
        forall|m: int| i < m < s.lines.len() ==> !(#[trigger] s.offers(m)).contains(q),
        !s.offers(i).take(a + 1).contains(q),
    ensures
        exists|x: int, y: int|
            0 <= x < y < s.harvest().len() && #[trigger] s.harvest()[x] == s.offers(i)[a]
                && #[trigger] s.harvest()[y] == q,
{
    let p = s.offers(i)[a];
    let all = s.offers_from(0);
    let later = s.offers_from(i + 1);
    let n = later.len() + a;
    lemma_offers_from_front(s, i, 0);
    assert(s.offers_from(i) == later + s.offers(i));
    assert(s.offers_from(i)[n] == p);
    assert(all[n] == p);
    text::lemma_dedup(all);
    assert(all.contains(p));
    assert(s.harvest().contains(p));
    let x = choose|x: int| 0 <= x < s.harvest().len() && s.harvest()[x] == p;
    let y = choose|y: int| 0 <= y < s.harvest().len() && s.harvest()[y] == q;
    assert forall|m: int| 0 <= m <= n implies #[trigger] all[m] != q by {
        assert(s.offers_from(i)[m] == all[m]);
        if m < later.len() {
            assert(later[m] == all[m]);
            if all[m] == q {
                assert(later.contains(q));
                lemma_offers_from(s, i + 1, q);
            }
        } else {
            assert(s.offers(i).take(a + 1)[m - later.len()] == all[m]);
        }
    }
    assert(p != q) by {
        assert(all[n] != q);
    }
    if y < x {
        text::law_dedup_keeps_first(all, y, x);
        let m = choose|m: int|
            0 <= m < all.len() && #[trigger] all[m] == s.harvest()[y] && (forall|k: int|
                0 <= k <= m ==> #[trigger] all[k] != s.harvest()[x]);
        if n <= m {
            assert(all[n] != s.harvest()[x]);
        }
    }
    assert(s.harvest()[x] == p && s.harvest()[y] == q);
}

/// The literals by which prompts are known are those of the format; without a format there are none.
pub proof fn law_literals_come_from_format(prompt: Option<Seq<char>>)
    ensures
        prompt matches Some(p) ==> literals_of(prompt) == prompt::literals(p),
        prompt is None ==> literals_of(prompt).len() == 0,
{
}

} // verus!
