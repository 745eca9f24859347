//! What exists: the interface to a filesystem, and one held in memory.

use vstd::prelude::*;
use crate::path;
use crate::path::{components_of, grounded_components, is_absolute, join_path, normalize_path};

verus! {

/// A filesystem as it is seen: the paths that exist, and those of them that are directories.
#[verifier::ext_equal]
pub struct Disk {
    pub paths: Set<Seq<char>>,
    pub dirs: Set<Seq<char>>,
}

/// A filesystem that can be asked what exists. Its answers agree with one state of the disk, which
/// does not change while it is being asked.
pub trait Filesystem {
    /// The state of the disk.
    spec fn disk(&self) -> Disk;

    /// Whether there is anything at the path.
    fn path_exists(&self, path: &str) -> (r: bool)
        ensures
            r == self.disk().paths.contains(path@),
    ;

    /// Whether there is a directory at the path.
    fn is_dir(&self, path: &str) -> (r: bool)
        ensures
            r == self.disk().dirs.contains(path@),
    ;
}

/// Whether a candidate, read in the directory `cwd`, names something that exists.
pub open spec fn present_at(candidate: Seq<char>, cwd: Seq<char>, disk: Disk) -> bool {
    disk.paths.contains(path::normalized(path::join(cwd, candidate)))
}

/// Tests whether a candidate, read in the directory `cwd`, names something that exists.
pub fn exists_at<F: Filesystem + ?Sized>(candidate: &str, cwd: &str, fs: &F) -> (r: bool)
    ensures
        r == present_at(candidate@, cwd@, fs.disk()),
{
    let joined: String = join_path(cwd, candidate);
    let place: String = normalize_path(joined.as_str());
    fs.path_exists(place.as_str())
}

// ---------------------------------------------------------------------------------------------
// A filesystem in memory
// ---------------------------------------------------------------------------------------------

/// The fewest components that a directory above the path can have: the root is one.
pub open spec fn lowest(file: Seq<char>) -> int {
    if path::absolute(file) {
        1
    } else {
        0
    }
}

/// The components under which a file is held: its own, without the `..` right behind the root.
pub open spec fn place(file: Seq<char>) -> Seq<Seq<char>> {
    path::grounded(path::components(file))
}

/// Whether the components name a directory above the file.
pub open spec fn above(file: Seq<char>, cs: Seq<Seq<char>>) -> bool {
    exists|n: int| lowest(file) <= n < place(file).len() && cs == #[trigger] place(file).take(n)
}

/// Whether the components name one of the files.
pub open spec fn declared(files: Seq<Seq<char>>, cs: Seq<Seq<char>>) -> bool {
    exists|i: int| 0 <= i < files.len() && cs == place(#[trigger] files[i])
}

/// Whether the components name the root or a directory above one of the files.
pub open spec fn inferred(files: Seq<Seq<char>>, cs: Seq<Seq<char>>) -> bool {
    cs == seq![path::root()] || exists|i: int|
        0 <= i < files.len() && above(#[trigger] files[i], cs)
}

/// The disk that holds just the files and the directories above them. A path is looked up by the
/// components of its normalised form.
pub open spec fn memory_disk(files: Seq<Seq<char>>) -> Disk {
    Disk {
        paths: Set::new(
            |p: Seq<char>|
                declared(files, path::components(path::normalized(p))) || inferred(
                    files,
                    path::components(path::normalized(p)),
                ),
        ),
        dirs: Set::new(|p: Seq<char>| inferred(files, path::components(path::normalized(p)))),
    }
}

/// A filesystem in memory: files are declared, and all directories above them are inferred.
/// Paths are normalised on lookup, so `..` and `.` components work correctly.
pub struct MemFs {
    files: Vec<Vec<String>>,
    dirs: Vec<Vec<String>>,
}

/// Tests whether two lists of components are the same.
pub fn same_list(a: &Vec<String>, b: &Vec<String>) -> (r: bool)
    ensures
        r == (a.deep_view() == b.deep_view()),
{
    if a.len() != b.len() {
        assert(a.deep_view().len() != b.deep_view().len());
        return false;
    }
    let mut i: usize = 0;
    while i < a.len()
        invariant
            i <= a@.len(),
            a@.len() == b@.len(),
            forall|k: int| 0 <= k < i ==> a@[k]@ == b@[k]@,
        decreases a@.len() - i,
    {
        if a[i] != b[i] {
            assert(a.deep_view()[i as int] != b.deep_view()[i as int]);
            return false;
        }
        i = i + 1;
    }
    assert(a.deep_view() =~= b.deep_view());
    true
}

/// Tests whether a list of components is among others.
fn holds(lists: &Vec<Vec<String>>, cs: &Vec<String>) -> (r: bool)
    ensures
        r == lists.deep_view().contains(cs.deep_view()),
{
    let mut i: usize = 0;
    while i < lists.len()
        invariant
            i <= lists@.len(),
            forall|k: int| 0 <= k < i ==> lists@[k].deep_view() != cs.deep_view(),
        decreases lists@.len() - i,
    {
        if same_list(&lists[i], cs) {
            assert(lists.deep_view()[i as int] == cs.deep_view());
            return true;
        }
        i = i + 1;
    }
    assert(forall|k: int|
        0 <= k < lists@.len() ==> lists.deep_view()[k] == lists@[k].deep_view());
    false
}

/// The first `n` components of a list.
pub fn first_components(cs: &Vec<String>, n: usize) -> (r: Vec<String>)
    requires
        n <= cs@.len(),
    ensures
        r.deep_view() == cs.deep_view().take(n as int),
{
    let mut out: Vec<String> = Vec::new();
    let mut i: usize = 0;
    while i < n
        invariant
            i <= n <= cs@.len(),
            out.deep_view() == cs.deep_view().take(i as int),
        decreases n - i,
    {
        let ghost before = out.deep_view();
        out.push(cs[i].clone());
        i = i + 1;
        assert(out.deep_view() =~= before.push(cs@[i - 1]@));
        assert(out.deep_view() =~= cs.deep_view().take(i as int));
    }
    out
}

impl MemFs {
    /// Declares the files; all directories above them are inferred.
    pub fn new(file_paths: &[&str]) -> (r: Self)
        ensures
            r.disk() == memory_disk(file_paths.deep_view()),
    {
        let ghost given = file_paths.deep_view();
        let mut files: Vec<Vec<String>> = Vec::new();
        let mut dirs: Vec<Vec<String>> = Vec::new();
        let top: Vec<String> = components_of("/");
        proof {
            reveal_strlit("/");
            assert("/"@ =~= path::root());
            path::lemma_small_components();
        }
        let ghost top_view = top.deep_view();
        dirs.push(top);
        assert(dirs.deep_view() =~= seq![top_view]);
        let mut i: usize = 0;
        assert forall|cs: Seq<Seq<char>>| #[trigger] dirs.deep_view().contains(cs) <==> inferred(
            given.take(0),
            cs,
        ) by {
            if cs == seq![path::root()] {
                assert(dirs.deep_view()[0] == cs);
            }
        }
        while i < file_paths.len()
            invariant
                i <= file_paths@.len(),
                given == file_paths.deep_view(),
                forall|cs: Seq<Seq<char>>| #[trigger]
                    files.deep_view().contains(cs) <==> declared(given.take(i as int), cs),
                forall|cs: Seq<Seq<char>>| #[trigger]
                    dirs.deep_view().contains(cs) <==> inferred(given.take(i as int), cs),
            decreases file_paths@.len() - i,
        {
            let file: &str = file_paths[i];
            let cs: Vec<String> = grounded_components(file);
            let ghost all = cs.deep_view();
            let ghost old_files = files.deep_view();
            let ghost old_dirs = dirs.deep_view();
            assert(given[i as int] == file@);
            let low: usize = if is_absolute(file) {
                1
            } else {
                0
            };
            let mut n: usize = cs.len();
            while n > low
                invariant
                    n <= cs@.len(),
                    low == lowest(file@),
                    all == cs.deep_view(),
                    all == place(file@),
                    forall|c: Seq<Seq<char>>| #[trigger]
                        dirs.deep_view().contains(c) <==> old_dirs.contains(c) || (exists|m: int|
                            n <= m < all.len() && lowest(file@) <= m && c == #[trigger] all.take(m)),
                decreases n,
            {
                let ghost before = dirs.deep_view();
                n = n - 1;
                let parent: Vec<String> = first_components(&cs, n);
                let ghost p = parent.deep_view();
                if !holds(&dirs, &parent) {
                    dirs.push(parent);
                    assert(dirs.deep_view() =~= before.push(p));
                }
                assert forall|c: Seq<Seq<char>>| #[trigger] dirs.deep_view().contains(c) <==> (
                before.contains(c) || c == p) by {
                    if before.contains(c) {
                        let j = choose|j: int| 0 <= j < before.len() && before[j] == c;
                        assert(dirs.deep_view()[j] == c);
                    }
                    if c == p && !before.contains(p) {
                        assert(dirs.deep_view()[before.len() as int] == p);
                    }
                }
                assert forall|c: Seq<Seq<char>>| #[trigger] dirs.deep_view().contains(c) <==> (
                old_dirs.contains(c) || (exists|m: int|
                    n <= m < all.len() && lowest(file@) <= m && c == #[trigger] all.take(m))) by {
                    if c == p {
                        assert(c == all.take(n as int));
                    }
                }
            }
            files.push(cs);
            assert(files.deep_view() =~= old_files.push(all));
            proof {
                let now = given.take(i + 1);
                let then = given.take(i as int);
                assert(now[i as int] == file@);
                assert forall|c: Seq<Seq<char>>| #[trigger] files.deep_view().contains(c)
                    <==> declared(now, c) by {
                    lemma_declared_push(then, file@, c);
                    assert(now =~= then.push(file@));
                    if old_files.contains(c) {
                        let j = choose|j: int| 0 <= j < old_files.len() && old_files[j] == c;
                        assert(files.deep_view()[j] == c);
                    }
                    if c == all {
                        assert(files.deep_view()[old_files.len() as int] == c);
                    }
                }
                assert forall|c: Seq<Seq<char>>| #[trigger] dirs.deep_view().contains(c)
                    <==> inferred(now, c) by {
                    lemma_inferred_push(then, file@, c);
                    assert(now =~= then.push(file@));
                    if above(file@, c) {
                        let m = choose|m: int|
                            lowest(file@) <= m < all.len() && c == #[trigger] all.take(m);
                        assert(c == all.take(m));
                    }
                }
            }
            i = i + 1;
        }
        let r = MemFs { files, dirs };
        assert(given.take(i as int) =~= given);
        assert(r.disk() =~= memory_disk(given));
        r
    }
}

proof fn lemma_declared_push(files: Seq<Seq<char>>, f: Seq<char>, cs: Seq<Seq<char>>)
    ensures
        declared(files.push(f), cs) <==> declared(files, cs) || cs == place(f),
{
    let all = files.push(f);
    assert(all[files.len() as int] == f);
    if declared(files, cs) {
        let i = choose|i: int| 0 <= i < files.len() && cs == place(#[trigger] files[i]);
        assert(all[i] == files[i]);
    }
}

proof fn lemma_inferred_push(files: Seq<Seq<char>>, f: Seq<char>, cs: Seq<Seq<char>>)
    ensures
        inferred(files.push(f), cs) <==> inferred(files, cs) || above(f, cs),
{
    let all = files.push(f);
    assert(all[files.len() as int] == f);
    if exists|i: int| 0 <= i < files.len() && above(#[trigger] files[i], cs) {
        let i = choose|i: int| 0 <= i < files.len() && above(#[trigger] files[i], cs);
        assert(all[i] == files[i]);
    }
}

impl Filesystem for MemFs {
    closed spec fn disk(&self) -> Disk {
        let files = self.files.deep_view();
        let dirs = self.dirs.deep_view();
        Disk {
            paths: Set::new(
                |p: Seq<char>|
                    files.contains(path::components(path::normalized(p))) || dirs.contains(
                        path::components(path::normalized(p)),
                    ),
            ),
            dirs: Set::new(|p: Seq<char>| dirs.contains(path::components(path::normalized(p)))),
        }
    }

    fn path_exists(&self, path: &str) -> (r: bool) {
        let p: String = normalize_path(path);
        let cs: Vec<String> = components_of(p.as_str());
        holds(&self.files, &cs) || holds(&self.dirs, &cs)
    }

    fn is_dir(&self, path: &str) -> (r: bool) {
        let p: String = normalize_path(path);
        let cs: Vec<String> = components_of(p.as_str());
        holds(&self.dirs, &cs)
    }
}

// ---------------------------------------------------------------------------------------------
// Laws
// ---------------------------------------------------------------------------------------------

/// In memory a path and its normalised form are the same place.
pub proof fn law_memory_normalizes(files: Seq<Seq<char>>, p: Seq<char>)
    ensures
        memory_disk(files).paths.contains(p) == memory_disk(files).paths.contains(
            path::normalized(p),
        ),
        memory_disk(files).dirs.contains(p) == memory_disk(files).dirs.contains(path::normalized(p)),
{
    path::law_normalize_idempotent(p);
}

/// In memory the root is its own parent.
pub proof fn law_memory_root_is_its_parent(files: Seq<Seq<char>>, q: Seq<char>)
    requires
        !path::absolute(q),
    ensures
        ({
            let up = path::join(path::join(path::root(), path::dotdot()), q);
            let down = path::join(path::root(), q);
            &&& memory_disk(files).paths.contains(up) == memory_disk(files).paths.contains(down)
            &&& memory_disk(files).dirs.contains(up) == memory_disk(files).dirs.contains(down)
        }),
{
    path::law_root_is_its_parent(q);
}

/// In memory a name and a `..` behind it cancel out, and a `.` changes nothing.
pub proof fn law_memory_dots_cancel_out(
    files: Seq<Seq<char>>,
    p: Seq<char>,
    name: Seq<char>,
    q: Seq<char>,
)
    requires
        p.len() > 0,
        path::is_name(name),
        name != path::dotdot(),
        !path::absolute(q),
    ensures
        ({
            let disk = memory_disk(files);
            let back = path::join(path::join(path::join(p, name), path::dotdot()), q);
            let here = path::join(path::join(p, path::dot()), q);
            let plain = path::join(p, q);
            &&& disk.paths.contains(back) == disk.paths.contains(plain)
            &&& disk.dirs.contains(back) == disk.dirs.contains(plain)
            &&& disk.paths.contains(here) == disk.paths.contains(plain)
            &&& disk.dirs.contains(here) == disk.dirs.contains(plain)
        }),
{
    path::law_dots_cancel_out(p, name, q);
}

/// In memory every directory exists.
pub proof fn law_memory_dirs_exist(files: Seq<Seq<char>>, p: Seq<char>)
    requires
        memory_disk(files).dirs.contains(p),
    ensures
        memory_disk(files).paths.contains(p),
{
}

/// In memory a declared file exists, if it is held in normal form.
pub proof fn law_memory_holds_declared(files: Seq<Seq<char>>, i: int)
    requires
        0 <= i < files.len(),
        path::normal(place(files[i])),
        place(files[i]).len() > 0,
    ensures
        memory_disk(files).paths.contains(files[i]),
{
    path::lemma_grounded(path::components(files[i]));
    path::lemma_walk_normal(place(files[i]));
    path::law_normalized_is_normal(files[i]);
}

/// In memory the directories above a declared file are all there, if it is held in normal form.
pub proof fn law_memory_infers_above(files: Seq<Seq<char>>, i: int, n: int)
    requires
        0 <= i < files.len(),
        path::normal(place(files[i])),
        1 <= n < place(files[i]).len(),
    ensures
        memory_disk(files).dirs.contains(path::render(place(files[i]).take(n))),
{
    let cs = place(files[i]);
    let up = cs.take(n);
    path::lemma_normal_prefix(cs, n);
    path::law_spelling_reads_back(up);
    path::lemma_walk_normal(up);
    path::law_normalized_is_normal(path::render(up));
    assert(above(files[i], up));
}

/// In memory there is nothing but the root, the declared files and the directories above them; of
/// these the files alone are no directories.
pub proof fn law_memory_holds_nothing_else(files: Seq<Seq<char>>, p: Seq<char>)
    ensures
        memory_disk(files).paths.contains(p) <==> path::components(path::normalized(p))
            == seq![seq!['/']] || exists|i: int, n: int|
            0 <= i < files.len() && (if files[i].len() > 0 && files[i][0] == '/' {
                1int
            } else {
                0int
            }) <= n <= path::grounded(path::components(files[i])).len() && path::components(
                path::normalized(p),
            ) == #[trigger] path::grounded(path::components(files[i])).take(n),
        memory_disk(files).dirs.contains(p) <==> path::components(path::normalized(p))
            == seq![seq!['/']] || exists|i: int, n: int|
            0 <= i < files.len() && (if files[i].len() > 0 && files[i][0] == '/' {
                1int
            } else {
                0int
            }) <= n < path::grounded(path::components(files[i])).len() && path::components(
                path::normalized(p),
            ) == #[trigger] path::grounded(path::components(files[i])).take(n),
{
    let cs = path::components(path::normalized(p));
    let disk = memory_disk(files);
    assert(path::root() =~= seq!['/']);
    assert forall|i: int| 0 <= i < files.len() implies #[trigger] place(files[i]).take(
        place(files[i]).len() as int,
    ) == place(files[i]) && lowest(files[i]) <= place(files[i]).len() by {
        assert(place(files[i]).take(place(files[i]).len() as int) =~= place(files[i]));
        path::lemma_components_well_formed(files[i]);
        lemma_grounded_len(path::components(files[i]));
    }
    if declared(files, cs) {
        let i = choose|i: int| 0 <= i < files.len() && cs == place(#[trigger] files[i]);
        let n = place(files[i]).len() as int;
        assert(cs == path::grounded(path::components(files[i])).take(n));
    }
    if inferred(files, cs) && cs != seq![path::root()] {
        let i = choose|i: int| 0 <= i < files.len() && above(#[trigger] files[i], cs);
        let n = choose|n: int|
            lowest(files[i]) <= n < place(files[i]).len() && cs == #[trigger] place(
                files[i],
            ).take(n);
        assert(cs == path::grounded(path::components(files[i])).take(n));
    }
    assert forall|i: int, n: int|
        0 <= i < files.len() && lowest(files[i]) <= n <= place(files[i]).len() && cs
            == #[trigger] path::grounded(path::components(files[i])).take(n) implies disk.paths.contains(
        p,
    ) && (n < place(files[i]).len() ==> disk.dirs.contains(p)) by {
        if n < place(files[i]).len() {
            assert(cs == place(files[i]).take(n));
            assert(above(files[i], cs));
        } else {
            assert(cs == place(files[i]));
        }
    }
}

proof fn lemma_grounded_len(cs: Seq<Seq<char>>)
    ensures
        cs.len() > 0 ==> path::grounded(cs).len() > 0,
    decreases cs.len(),
{
    if cs.len() > 1 && cs[0] == path::root() && cs[1] == path::dotdot() {
        lemma_grounded_len(cs.remove(1));
    }
}

/// A candidate is present in a directory just where the disk has its place: the candidate taken from
/// the directory, normalised.
pub proof fn law_candidate_is_read_in_directory(candidate: Seq<char>, cwd: Seq<char>, disk: Disk)
    ensures
        present_at(candidate, cwd, disk) <==> disk.paths.contains(
            path::normalized(path::join(cwd, candidate)),
        ),
{
}

} // verus!
