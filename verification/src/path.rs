//! Paths, read as the shell reads them.
//!
//! A path is a string; `/` separates its parts. [`components`] is its reading as a list: the root
//! is written `/`, the present directory `.`, the parent directory `..`, and any other part by its
//! name. Repeated separators, separators at the end and `.` anywhere but at the front leave no
//! trace in that list.

use vstd::prelude::*;
use crate::text;
use crate::text::{bytes_in, chars_of, split_str, CharClass};

verus! {

// ---------------------------------------------------------------------------------------------
// Components
// ---------------------------------------------------------------------------------------------

/// The root directory as a component.
pub open spec fn root() -> Seq<char> {
    seq!['/']
}

/// The present directory as a component.
pub open spec fn dot() -> Seq<char> {
    seq!['.']
}

/// The parent directory as a component.
pub open spec fn dotdot() -> Seq<char> {
    seq!['.', '.']
}

/// Whether a path starts at the root.
pub open spec fn absolute(p: Seq<char>) -> bool {
    p.len() > 0 && p[0] == '/'
}

/// The pieces between separators that count: neither empty nor `.`.
pub open spec fn parts(ps: Seq<Seq<char>>) -> Seq<Seq<char>>
    decreases ps.len(),
{
    if ps.len() == 0 {
        ps
    } else if ps.last().len() == 0 || ps.last() == dot() {
        parts(ps.drop_last())
    } else {
        parts(ps.drop_last()).push(ps.last())
    }
}

/// What stands before the parts: the root, or the present directory where the path begins with it.
pub open spec fn front(p: Seq<char>) -> Seq<Seq<char>> {
    if absolute(p) {
        seq![root()]
    } else if text::split(p, CharClass::Slash)[0] == dot() {
        seq![dot()]
    } else {
        Seq::<Seq<char>>::empty()
    }
}

/// The components of a path.
pub open spec fn components(p: Seq<char>) -> Seq<Seq<char>> {
    front(p) + parts(text::split(p, CharClass::Slash))
}

/// The path `p` taken from `base`.
pub open spec fn join(base: Seq<char>, p: Seq<char>) -> Seq<char> {
    if absolute(p) {
        p
    } else if base.len() == 0 || base.last() == '/' {
        base + p
    } else {
        base.push('/') + p
    }
}

/// The path that a list of components spells.
pub open spec fn render(cs: Seq<Seq<char>>) -> Seq<char>
    decreases cs.len(),
{
    if cs.len() == 0 {
        Seq::<char>::empty()
    } else {
        join(render(cs.drop_last()), cs.last())
    }
}

// ---------------------------------------------------------------------------------------------
// Normal form
// ---------------------------------------------------------------------------------------------

/// One component more on a normalised list: `.` changes nothing, and `..` takes the last name away.
/// Where there is no name to take away, `..` leaves the root as it is, which is its own parent, and
/// is kept otherwise.
pub open spec fn step(acc: Seq<Seq<char>>, c: Seq<char>) -> Seq<Seq<char>> {
    if c == dot() {
        acc
    } else if c == dotdot() {
        if acc.len() == 0 || acc.last() == dotdot() {
            acc.push(c)
        } else if acc.last() == root() {
            acc
        } else {
            acc.drop_last()
        }
    } else {
        acc.push(c)
    }
}

/// The components `cs` taken one by one after `acc`.
pub open spec fn walk(acc: Seq<Seq<char>>, cs: Seq<Seq<char>>) -> Seq<Seq<char>>
    decreases cs.len(),
{
    if cs.len() == 0 {
        acc
    } else {
        step(walk(acc, cs.drop_last()), cs.last())
    }
}

/// The normalised components of a path.
pub open spec fn resolved(p: Seq<char>) -> Seq<Seq<char>> {
    walk(Seq::<Seq<char>>::empty(), components(p))
}

/// The normalised path.
pub open spec fn normalized(p: Seq<char>) -> Seq<char> {
    if resolved(p).len() == 0 {
        dot()
    } else {
        render(resolved(p))
    }
}

/// A list of components without the `..` right behind the root.
pub open spec fn grounded(cs: Seq<Seq<char>>) -> Seq<Seq<char>>
    decreases cs.len(),
{
    if cs.len() > 1 && cs[0] == root() && cs[1] == dotdot() {
        grounded(cs.remove(1))
    } else {
        cs
    }
}

// ---------------------------------------------------------------------------------------------
// From one directory to another
// ---------------------------------------------------------------------------------------------

/// The number of components that two lists share at the front.
pub open spec fn shared(a: Seq<Seq<char>>, b: Seq<Seq<char>>) -> int
    decreases a.len(),
{
    if a.len() > 0 && b.len() > 0 && a[0] == b[0] {
        1 + shared(a.skip(1), b.skip(1))
    } else {
        0
    }
}

/// The way from the components `from` to the components `to`: up to what they share, then down.
pub open spec fn way(from: Seq<Seq<char>>, to: Seq<Seq<char>>) -> Seq<Seq<char>> {
    Seq::new((from.len() - shared(from, to)) as nat, |i: int| dotdot()) + to.skip(shared(from, to))
}

/// The path `to` as seen from `from_dir`.
pub open spec fn relative(from_dir: Seq<char>, to: Seq<char>) -> Seq<char> {
    let r = render(way(components(from_dir), components(to)));
    if r.len() == 0 {
        dot()
    } else {
        r
    }
}

/// The path `path` as seen from `cwd`: with `./` in front where it lies below.
pub open spec fn seen_from(path: Seq<char>, cwd: Seq<char>) -> Seq<char> {
    let a = components(path);
    let c = components(cwd);
    if c.is_prefix_of(a) {
        let rest = render(a.skip(c.len() as int));
        if rest.len() == 0 {
            dot()
        } else {
            seq!['.', '/'] + rest
        }
    } else {
        relative(cwd, path)
    }
}

/// A candidate found in `section_cwd`, as it is to be written in `current_cwd`: relative, or
/// absolute where that takes fewer bytes.
pub open spec fn rebased(
    candidate: Seq<char>,
    section_cwd: Seq<char>,
    current_cwd: Seq<char>,
) -> Seq<char> {
    let abs = normalized(join(section_cwd, candidate));
    let rel = seen_from(abs, current_cwd);
    if text::byte_len(rel) <= text::byte_len(abs) {
        rel
    } else {
        abs
    }
}

// ---------------------------------------------------------------------------------------------
// Executable functions
// ---------------------------------------------------------------------------------------------

/// Tests whether a path starts at the root.
pub fn is_absolute(p: &str) -> (r: bool)
    ensures
        r == absolute(p@),
{
    let cs: Vec<char> = chars_of(p);
    cs.len() > 0 && cs[0] == '/'
}

/// Tests whether a component or piece is `.`.
fn is_dot(s: &str) -> (r: bool)
    ensures
        r == (s@ == dot()),
{
    let cs: Vec<char> = chars_of(s);
    if cs.len() == 1 && cs[0] == '.' {
        assert(s@ =~= dot());
        true
    } else {
        false
    }
}

/// Tests whether a component is `..`.
pub fn is_dotdot(s: &str) -> (r: bool)
    ensures
        r == (s@ == dotdot()),
{
    let cs: Vec<char> = chars_of(s);
    if cs.len() == 2 && cs[0] == '.' && cs[1] == '.' {
        assert(s@ =~= dotdot());
        true
    } else {
        false
    }
}

/// Tests whether a component is the root.
fn is_root(s: &str) -> (r: bool)
    ensures
        r == (s@ == root()),
{
    let cs: Vec<char> = chars_of(s);
    if cs.len() == 1 && cs[0] == '/' {
        assert(s@ =~= root());
        true
    } else {
        false
    }
}

/// The root as a string.
fn root_text() -> (r: String)
    ensures
        r@ == root(),
{
    let mut s: String = String::new();
    s.push('/');
    assert(s@ =~= root());
    s
}

/// The present directory as a string.
fn dot_text() -> (r: String)
    ensures
        r@ == dot(),
{
    let mut s: String = String::new();
    s.push('.');
    assert(s@ =~= dot());
    s
}

/// The parent directory as a string.
fn dotdot_text() -> (r: String)
    ensures
        r@ == dotdot(),
{
    let mut s: String = String::new();
    s.push('.');
    s.push('.');
    assert(s@ =~= dotdot());
    s
}

/// Reads the components of a path.
pub fn components_of(p: &str) -> (r: Vec<String>)
    ensures
        r.deep_view() == components(p@),
{
    let ps: Vec<String> = split_str(p, CharClass::Slash);
    let mut out: Vec<String> = Vec::new();
    proof {
        text::lemma_pieces_len(text::cut(p@, CharClass::Slash));
        assert(ps.deep_view()[0] == ps@[0]@);
    }
    if is_absolute(p) {
        out.push(root_text());
    } else if is_dot(ps[0].as_str()) {
        out.push(dot_text());
    }
    assert(out.deep_view() =~= front(p@));
    let mut i: usize = 0;
    assert(out.deep_view() =~= front(p@) + parts(ps.deep_view().take(0)));
    while i < ps.len()
        invariant
            i <= ps@.len(),
            out.deep_view() == front(p@) + parts(ps.deep_view().take(i as int)),
        decreases ps@.len() - i,
    {
        let ghost before = out.deep_view();
        assert(ps.deep_view().take(i + 1).drop_last() =~= ps.deep_view().take(i as int));
        if !ps[i].as_str().is_empty() && !is_dot(ps[i].as_str()) {
            out.push(ps[i].clone());
            assert(out.deep_view() =~= before.push(ps@[i as int]@));
        }
        i = i + 1;
        assert(out.deep_view() =~= front(p@) + parts(ps.deep_view().take(i as int)));
    }
    assert(ps.deep_view().take(i as int) =~= ps.deep_view());
    out
}

/// Takes the path `p` from `base`.
pub fn join_path(base: &str, p: &str) -> (r: String)
    ensures
        r@ == join(base@, p@),
{
    if is_absolute(p) {
        return p.to_owned();
    }
    let cs: Vec<char> = chars_of(base);
    let mut out: String = base.to_owned();
    if cs.len() > 0 && cs[cs.len() - 1] != '/' {
        out.push('/');
    }
    out.append(p);
    out
}

/// Spells a list of components.
pub fn render_of(cs: &Vec<String>) -> (r: String)
    ensures
        r@ == render(cs.deep_view()),
{
    let mut out: String = String::new();
    let mut i: usize = 0;
    while i < cs.len()
        invariant
            i <= cs@.len(),
            out@ == render(cs.deep_view().take(i as int)),
        decreases cs@.len() - i,
    {
        assert(cs.deep_view().take(i + 1).drop_last() =~= cs.deep_view().take(i as int));
        out = join_path(out.as_str(), cs[i].as_str());
        i = i + 1;
    }
    assert(cs.deep_view().take(i as int) =~= cs.deep_view());
    out
}

/// Normalises a path: `.` is dropped, `..` takes the name before it away, and is dropped itself at
/// the root.
pub fn normalize_path(path: &str) -> (r: String)
    ensures
        r@ == normalized(path@),
{
    let cs: Vec<String> = components_of(path);
    let mut out: Vec<String> = Vec::new();
    let ghost none = Seq::<Seq<char>>::empty();
    let mut i: usize = 0;
    assert(out.deep_view() =~= walk(none, cs.deep_view().take(0)));
    while i < cs.len()
        invariant
            i <= cs@.len(),
            none == Seq::<Seq<char>>::empty(),
            out.deep_view() == walk(none, cs.deep_view().take(i as int)),
        decreases cs@.len() - i,
    {
        let ghost before = out.deep_view();
        assert(cs.deep_view().take(i + 1).drop_last() =~= cs.deep_view().take(i as int));
        assert(cs.deep_view().take(i + 1).last() == cs@[i as int]@);
        if is_dotdot(cs[i].as_str()) {
            let n: usize = out.len();
            if n == 0 || is_dotdot(out[n - 1].as_str()) {
                out.push(cs[i].clone());
                assert(out.deep_view() =~= before.push(dotdot()));
            } else if !is_root(out[n - 1].as_str()) {
                let _ = out.pop();
                assert(out.deep_view() =~= before.drop_last());
            }
        } else if !is_dot(cs[i].as_str()) {
            out.push(cs[i].clone());
            assert(out.deep_view() =~= before.push(cs@[i as int]@));
        }
        i = i + 1;
    }
    assert(cs.deep_view().take(i as int) =~= cs.deep_view());
    if out.len() == 0 {
        dot_text()
    } else {
        render_of(&out)
    }
}

/// The components of a path, without the `..` right behind the root.
pub fn grounded_components(p: &str) -> (r: Vec<String>)
    ensures
        r.deep_view() == grounded(components(p@)),
{
    let mut cs: Vec<String> = components_of(p);
    while cs.len() > 1 && is_root(cs[0].as_str()) && is_dotdot(cs[1].as_str())
        invariant
            grounded(cs.deep_view()) == grounded(components(p@)),
        decreases cs@.len(),
    {
        let ghost before = cs.deep_view();
        let _ = cs.remove(1);
        assert(cs.deep_view() =~= before.remove(1));
    }
    cs
}

/// Counts the components that two lists share at the front.
fn count_shared(a: &Vec<String>, b: &Vec<String>) -> (r: usize)
    ensures
        r == shared(a.deep_view(), b.deep_view()),
        r <= a@.len(),
        r <= b@.len(),
{
    let ghost x = a.deep_view();
    let ghost y = b.deep_view();
    let mut n: usize = 0;
    assert(x.skip(0) =~= x && y.skip(0) =~= y);
    while n < a.len() && n < b.len() && a[n] == b[n]
        invariant
            n <= a@.len(),
            n <= b@.len(),
            x == a.deep_view(),
            y == b.deep_view(),
            shared(x, y) == n + shared(x.skip(n as int), y.skip(n as int)),
        decreases a@.len() - n,
    {
        assert(x.skip(n as int).skip(1) =~= x.skip(n + 1));
        assert(y.skip(n as int).skip(1) =~= y.skip(n + 1));
        n = n + 1;
    }
    n
}

/// The path `to` as seen from `from_dir`.
pub fn make_relative(from_dir: &str, to: &str) -> (r: String)
    ensures
        r@ == relative(from_dir@, to@),
{
    let from: Vec<String> = components_of(from_dir);
    let dest: Vec<String> = components_of(to);
    let common: usize = count_shared(&from, &dest);
    let ghost up = Seq::new((from@.len() - common) as nat, |i: int| dotdot());
    let mut list: Vec<String> = Vec::new();
    let mut i: usize = common;
    while i < from.len()
        invariant
            common <= i <= from@.len(),
            up == Seq::new((from@.len() - common) as nat, |i: int| dotdot()),
            list.deep_view() == up.take(i - common),
        decreases from@.len() - i,
    {
        let ghost before = list.deep_view();
        list.push(dotdot_text());
        i = i + 1;
        assert(list.deep_view() =~= before.push(dotdot()));
        assert(list.deep_view() =~= up.take(i - common));
    }
    let mut k: usize = common;
    assert(list.deep_view() =~= up + dest.deep_view().subrange(common as int, k as int));
    while k < dest.len()
        invariant
            common <= k <= dest@.len(),
            list.deep_view() == up + dest.deep_view().subrange(common as int, k as int),
        decreases dest@.len() - k,
    {
        let ghost before = list.deep_view();
        list.push(dest[k].clone());
        k = k + 1;
        assert(list.deep_view() =~= before.push(dest@[k - 1]@));
        assert(list.deep_view() =~= up + dest.deep_view().subrange(common as int, k as int));
    }
    assert(list.deep_view() =~= way(from.deep_view(), dest.deep_view()));
    let r: String = render_of(&list);
    if r.as_str().is_empty() {
        dot_text()
    } else {
        r
    }
}

/// Tests whether one list of components begins another.
fn leads(c: &Vec<String>, a: &Vec<String>) -> (r: bool)
    ensures
        r == c.deep_view().is_prefix_of(a.deep_view()),
{
    if c.len() > a.len() {
        return false;
    }
    let mut i: usize = 0;
    while i < c.len()
        invariant
            i <= c@.len() <= a@.len(),
            forall|k: int| 0 <= k < i ==> c@[k]@ == a@[k]@,
        decreases c@.len() - i,
    {
        if c[i] != a[i] {
            assert(c.deep_view()[i as int] != a.deep_view().subrange(0, c@.len() as int)[i as int]);
            return false;
        }
        i = i + 1;
    }
    assert(c.deep_view() =~= a.deep_view().subrange(0, c@.len() as int));
    true
}

/// Writes a candidate found in `section_cwd` as it is to be read in `current_cwd`: relative, or
/// absolute where that is shorter.
pub fn rebase_path(candidate: &str, section_cwd: &str, current_cwd: &str) -> (r: String)
    ensures
        r@ == rebased(candidate@, section_cwd@, current_cwd@),
{
    let joined: String = join_path(section_cwd, candidate);
    let abs: String = normalize_path(joined.as_str());
    let a: Vec<String> = components_of(abs.as_str());
    let c: Vec<String> = components_of(current_cwd);
    let rel: String;
    if leads(&c, &a) {
        let mut below: Vec<String> = Vec::new();
        let mut i: usize = c.len();
        while i < a.len()
            invariant
                c@.len() <= i <= a@.len(),
                below.deep_view() == a.deep_view().subrange(c@.len() as int, i as int),
            decreases a@.len() - i,
        {
            let ghost before = below.deep_view();
            below.push(a[i].clone());
            i = i + 1;
            assert(below.deep_view() =~= before.push(a@[i - 1]@));
            assert(below.deep_view() =~= a.deep_view().subrange(c@.len() as int, i as int));
        }
        assert(below.deep_view() =~= a.deep_view().skip(c@.len() as int));
        let rest: String = render_of(&below);
        if rest.as_str().is_empty() {
            rel = dot_text();
        } else {
            let mut text: String = String::new();
            text.push('.');
            text.push('/');
            text.append(rest.as_str());
            assert(text@ =~= seq!['.', '/'] + rest@);
            rel = text;
        }
    } else {
        rel = make_relative(current_cwd, abs.as_str());
    }
    if bytes_in(rel.as_str()) <= bytes_in(abs.as_str()) {
        rel
    } else {
        abs
    }
}

/// The forms in which a path is offered: as it is.
pub fn path_variants(path: &str) -> (r: Vec<String>)
    ensures
        r.deep_view() == seq![path@],
{
    let mut out: Vec<String> = Vec::new();
    out.push(path.to_owned());
    assert(out.deep_view() =~= seq![path@]);
    out
}

// ---------------------------------------------------------------------------------------------
// Shapes of component lists
// ---------------------------------------------------------------------------------------------

/// A component other than the root and `.`: not empty, without a separator.
pub open spec fn is_name(t: Seq<char>) -> bool {
    &&& t.len() > 0
    &&& t != dot()
    &&& forall|i: int| 0 <= i < t.len() ==> #[trigger] t[i] != '/'
}

/// A list of components as a path has them: names, with the root or `.` at most in front.
pub open spec fn well_formed(cs: Seq<Seq<char>>) -> bool {
    forall|i: int|
        0 <= i < cs.len() ==> is_name(#[trigger] cs[i]) || (i == 0 && (cs[i] == root() || cs[i]
            == dot()))
}

/// A list of components in normal form: no `.`, and nothing but `..` before a `..`.
pub open spec fn normal(cs: Seq<Seq<char>>) -> bool {
    &&& well_formed(cs)
    &&& cs.len() > 0 ==> cs[0] != dot()
    &&& forall|i: int, j: int|
        0 <= j < i < cs.len() && #[trigger] cs[i] == dotdot() ==> #[trigger] cs[j] == dotdot()
}

/// A list of components in which no `..` stands behind a name.
pub open spec fn straight(cs: Seq<Seq<char>>) -> bool {
    forall|i: int, j: int|
        0 <= j < i < cs.len() && #[trigger] cs[i] == dotdot() ==> #[trigger] cs[j] == dotdot()
            || cs[j] == root() || cs[j] == dot()
}

// ---------------------------------------------------------------------------------------------
// Reading and spelling
// ---------------------------------------------------------------------------------------------

/// The parts on either side.
pub proof fn lemma_parts_add(a: Seq<Seq<char>>, b: Seq<Seq<char>>)
    ensures
        parts(a + b) == parts(a) + parts(b),
    decreases b.len(),
{
    if b.len() == 0 {
        assert(a + b =~= a);
        assert(parts(a + b) =~= parts(a) + parts(b));
    } else {
        assert((a + b).drop_last() =~= a + b.drop_last());
        lemma_parts_add(a, b.drop_last());
        assert(parts(a + b) =~= parts(a) + parts(b));
    }
}

/// The parts of a single piece.
proof fn lemma_parts_one(t: Seq<char>)
    ensures
        parts(seq![t]) == if t.len() == 0 || t == dot() {
            Seq::<Seq<char>>::empty()
        } else {
            seq![t]
        },
{
    let s = seq![t];
    assert(s.drop_last() =~= Seq::<Seq<char>>::empty());
    assert(parts(s.drop_last()) =~= Seq::<Seq<char>>::empty());
    assert(s.last() == t);
    assert(Seq::<Seq<char>>::empty().push(t) =~= seq![t]);
}

/// What [`parts`] keeps are pieces of the list that count.
proof fn lemma_parts_members(ps: Seq<Seq<char>>, k: int)
    requires
        0 <= k < parts(ps).len(),
    ensures
        parts(ps)[k].len() > 0,
        parts(ps)[k] != dot(),
        ps.contains(parts(ps)[k]),
    decreases ps.len(),
{
    let d = ps.drop_last();
    if ps.last().len() != 0 && ps.last() != dot() && k == parts(d).len() {
        assert(ps[ps.len() - 1] == parts(ps)[k]);
    } else {
        lemma_parts_members(d, k);
        let j = choose|j: int| 0 <= j < d.len() && d[j] == parts(d)[k];
        assert(ps[j] == parts(ps)[k]);
    }
}

/// The parts of a path are names.
pub proof fn lemma_part_names(p: Seq<char>)
    ensures
        forall|k: int|
            0 <= k < parts(text::split(p, CharClass::Slash)).len() ==> is_name(
                #[trigger] parts(text::split(p, CharClass::Slash))[k],
            ),
{
    let ps = text::split(p, CharClass::Slash);
    assert forall|k: int| 0 <= k < parts(ps).len() implies is_name(#[trigger] parts(ps)[k]) by {
        lemma_parts_members(ps, k);
        let j = choose|j: int| 0 <= j < ps.len() && ps[j] == parts(ps)[k];
        text::lemma_split_free(p, CharClass::Slash, j);
        assert forall|i: int| 0 <= i < parts(ps)[k].len() implies #[trigger] parts(ps)[k][i]
            != '/' by {
            assert(ps[j][i] == parts(ps)[k][i]);
        }
    }
}

/// The components of any path are well formed; the root is among them just where the path is
/// absolute.
pub proof fn lemma_components_well_formed(p: Seq<char>)
    ensures
        well_formed(components(p)),
        absolute(p) <==> components(p).len() > 0 && components(p)[0] == root(),
{
    lemma_part_names(p);
    let ps = parts(text::split(p, CharClass::Slash));
    let n = front(p).len();
    assert forall|i: int| 0 <= i < components(p).len() implies is_name(#[trigger] components(p)[i])
        || (i == 0 && (components(p)[i] == root() || components(p)[i] == dot())) by {
        if i >= n {
            assert(components(p)[i] == ps[i - n]);
        }
    }
    if components(p).len() > 0 && components(p)[0] == root() && !absolute(p) {
        if n == 0 {
            assert(is_name(ps[0]));
            assert(ps[0] == root());
            assert(ps[0][0] == '/');
        } else {
            assert(components(p)[0] == dot());
            assert(root()[0] != dot()[0]);
        }
    }
}

/// The components of a joined path are those of its two halves.
pub proof fn lemma_join_components(base: Seq<char>, p: Seq<char>)
    requires
        base.len() > 0,
        !absolute(p),
    ensures
        components(join(base, p)) == components(base) + parts(text::split(p, CharClass::Slash)),
        absolute(join(base, p)) == absolute(base),
        join(base, p).len() > 0,
{
    let k = CharClass::Slash;
    let whole = join(base, p);
    assert(whole[0] == base[0]);
    if base.last() == '/' {
        let b = base.drop_last();
        assert(base =~= b.push('/') + Seq::<char>::empty());
        assert(whole =~= b.push('/') + p);
        text::lemma_split_join(b, '/', p, k);
        text::lemma_split_join(b, '/', Seq::<char>::empty(), k);
        text::lemma_split_whole(Seq::<char>::empty(), k);
        text::lemma_pieces_len(text::cut(b, k));
        lemma_parts_add(text::split(b, k), text::split(p, k));
        lemma_parts_add(text::split(b, k), seq![Seq::<char>::empty()]);
        lemma_parts_one(Seq::<char>::empty());
        assert(parts(text::split(base, k)) =~= parts(text::split(b, k)));
        assert(text::split(base, k)[0] == text::split(b, k)[0]);
        assert(text::split(whole, k)[0] == text::split(b, k)[0]);
    } else {
        text::lemma_split_join(base, '/', p, k);
        text::lemma_pieces_len(text::cut(base, k));
        lemma_parts_add(text::split(base, k), text::split(p, k));
        assert(text::split(whole, k)[0] == text::split(base, k)[0]);
    }
    assert(components(whole) =~= components(base) + parts(text::split(p, k)));
}

/// A name is its only component.
proof fn lemma_name_components(t: Seq<char>)
    requires
        is_name(t),
    ensures
        components(t) == seq![t],
        parts(text::split(t, CharClass::Slash)) == seq![t],
        !absolute(t),
{
    text::lemma_split_whole(t, CharClass::Slash);
    lemma_parts_one(t);
    assert(components(t) =~= seq![t]);
}

/// The empty path has no components, the root is its only one, and so is `.`.
pub proof fn lemma_small_components()
    ensures
        components(Seq::<char>::empty()) == Seq::<Seq<char>>::empty(),
        components(root()) == seq![root()],
        components(dot()) == seq![dot()],
        parts(text::split(dot(), CharClass::Slash)) == Seq::<Seq<char>>::empty(),
{
    let k = CharClass::Slash;
    let none = Seq::<char>::empty();
    text::lemma_split_whole(none, k);
    lemma_parts_one(none);
    assert(components(none) =~= Seq::<Seq<char>>::empty());
    assert(root() =~= none.push('/') + none);
    text::lemma_split_join(none, '/', none, k);
    lemma_parts_add(seq![none], seq![none]);
    assert(components(root()) =~= seq![root()]);
    text::lemma_split_whole(dot(), k);
    lemma_parts_one(dot());
    assert(components(dot()) =~= seq![dot()]);
}

/// Reading what a well-formed list spells gives the list back.
pub proof fn law_spelling_reads_back(cs: Seq<Seq<char>>)
    requires
        well_formed(cs),
    ensures
        components(render(cs)) == cs,
        cs.len() > 0 ==> render(cs).len() > 0,
        absolute(render(cs)) <==> cs.len() > 0 && cs[0] == root(),
    decreases cs.len(),
{
    lemma_small_components();
    if cs.len() == 0 {
        assert(cs =~= Seq::<Seq<char>>::empty());
    } else {
        let d = cs.drop_last();
        let t = cs.last();
        assert forall|i: int| 0 <= i < d.len() implies is_name(#[trigger] d[i]) || (i == 0 && (d[i]
            == root() || d[i] == dot())) by {
            assert(d[i] == cs[i]);
        }
        law_spelling_reads_back(d);
        assert(cs[cs.len() - 1] == t);
        if cs.len() == 1 {
            assert(render(d) =~= Seq::<char>::empty());
            assert(render(cs) =~= t);
            assert(cs =~= seq![t]);
            if is_name(t) {
                lemma_name_components(t);
            }
        } else {
            assert(d[0] == cs[0]);
            lemma_name_components(t);
            lemma_join_components(render(d), t);
            assert(d + seq![t] =~= cs);
        }
        lemma_components_well_formed(render(cs));
    }
}

/// Joining a relative path to a path that is not empty keeps the components of both; only a
/// leading `.` of the second one is lost.
pub proof fn law_join_reads_both(base: Seq<char>, p: Seq<char>)
    requires
        base.len() > 0,
        !absolute(p),
    ensures
        components(join(base, p)) == components(base) + if components(p).len() > 0
            && components(p)[0] == dot() {
            components(p).skip(1)
        } else {
            components(p)
        },
{
    lemma_join_components(base, p);
    lemma_part_names(p);
    let ps = parts(text::split(p, CharClass::Slash));
    if front(p).len() > 0 {
        assert(components(p).skip(1) =~= ps);
    } else {
        assert(components(p) =~= ps);
        if ps.len() > 0 {
            assert(is_name(ps[0]));
        }
    }
}

// ---------------------------------------------------------------------------------------------
// Normal form
// ---------------------------------------------------------------------------------------------

/// Walking two lists is walking one after the other.
pub proof fn lemma_walk_add(acc: Seq<Seq<char>>, a: Seq<Seq<char>>, b: Seq<Seq<char>>)
    ensures
        walk(acc, a + b) == walk(walk(acc, a), b),
    decreases b.len(),
{
    if b.len() == 0 {
        assert(a + b =~= a);
    } else {
        assert((a + b).drop_last() =~= a + b.drop_last());
        lemma_walk_add(acc, a, b.drop_last());
    }
}

/// A list in normal form stays as it is.
pub proof fn lemma_walk_normal(cs: Seq<Seq<char>>)
    requires
        normal(cs),
    ensures
        walk(Seq::<Seq<char>>::empty(), cs) == cs,
    decreases cs.len(),
{
    if cs.len() > 0 {
        let d = cs.drop_last();
        lemma_normal_prefix(cs, cs.len() - 1);
        assert(d =~= cs.take(cs.len() - 1));
        lemma_walk_normal(d);
        let t = cs.last();
        assert(cs[cs.len() - 1] == t);
        if t == dotdot() && cs.len() > 1 {
            assert(d.last() == cs[cs.len() - 2]);
        }
        assert(d.push(t) =~= cs);
    } else {
        assert(cs =~= Seq::<Seq<char>>::empty());
    }
}

/// What a list in normal form begins with is in normal form.
pub proof fn lemma_normal_prefix(cs: Seq<Seq<char>>, n: int)
    requires
        normal(cs),
        0 <= n <= cs.len(),
    ensures
        normal(cs.take(n)),
{
    let d = cs.take(n);
    assert forall|i: int| 0 <= i < d.len() implies is_name(#[trigger] d[i]) || (i == 0 && (d[i]
        == root() || d[i] == dot())) by {
        assert(d[i] == cs[i]);
    }
    assert forall|i: int, j: int|
        0 <= j < i < d.len() && #[trigger] d[i] == dotdot() implies #[trigger] d[j] == dotdot() by {
        assert(d[i] == cs[i]);
        assert(d[j] == cs[j]);
    }
    if d.len() > 0 {
        assert(d[0] == cs[0]);
    }
}

/// Walking a well-formed list ends in normal form, and starts at the root where the list does.
pub proof fn lemma_walk_is_normal(cs: Seq<Seq<char>>)
    requires
        well_formed(cs),
    ensures
        normal(walk(Seq::<Seq<char>>::empty(), cs)),
        (cs.len() > 0 && cs[0] == root()) <==> (walk(Seq::<Seq<char>>::empty(), cs).len() > 0
            && walk(Seq::<Seq<char>>::empty(), cs)[0] == root()),
    decreases cs.len(),
{
    let none = Seq::<Seq<char>>::empty();
    assert(root()[0] == '/');
    assert(dot()[0] == '.');
    assert(dotdot()[0] == '.' && dotdot()[1] == '.' && dotdot().len() == 2);
    if cs.len() > 0 {
        let d = cs.drop_last();
        assert forall|i: int| 0 <= i < d.len() implies is_name(#[trigger] d[i]) || (i == 0 && (d[i]
            == root() || d[i] == dot())) by {
            assert(d[i] == cs[i]);
        }
        lemma_walk_is_normal(d);
        let acc = walk(none, d);
        let c = cs.last();
        let w = walk(none, cs);
        assert(cs[cs.len() - 1] == c);
        if d.len() > 0 {
            assert(d[0] == cs[0]);
            assert(is_name(c));
            assert(c[0] != '/');
        }
        if c == dot() {
        } else if c == dotdot() && acc.len() > 0 && acc.last() == root() {
        } else if c == dotdot() && acc.len() > 0 && acc.last() != dotdot() {
            lemma_normal_prefix(acc, acc.len() - 1);
            assert(w =~= acc.take(acc.len() - 1));
        } else {
            assert(w == acc.push(c));
            if c == dotdot() && acc.len() > 0 {
                assert(acc[acc.len() - 1] == dotdot());
            }
            assert forall|i: int| 0 <= i < w.len() implies is_name(#[trigger] w[i]) || (i == 0 && (
            w[i] == root() || w[i] == dot())) by {
                if i < acc.len() {
                    assert(w[i] == acc[i]);
                }
            }
            assert forall|i: int, j: int|
                0 <= j < i < w.len() && #[trigger] w[i] == dotdot() implies #[trigger] w[j]
                == dotdot() by {
                assert(w[j] == acc[j]);
                if i < acc.len() {
                    assert(w[i] == acc[i]);
                }
            }
        }
    }
}

/// The components of a normalised path are in normal form, but for the path `.`; it is absolute
/// just where the path was, and then has no `..`.
pub proof fn law_normalized_is_normal(p: Seq<char>)
    ensures
        normal(resolved(p)),
        components(normalized(p)) == if resolved(p).len() == 0 {
            seq![dot()]
        } else {
            resolved(p)
        },
        absolute(normalized(p)) == absolute(p),
        absolute(p) ==> !resolved(p).contains(dotdot()),
{
    lemma_components_well_formed(p);
    lemma_walk_is_normal(components(p));
    lemma_small_components();
    law_spelling_reads_back(resolved(p));
    let r = resolved(p);
    if absolute(p) && r.contains(dotdot()) {
        let i = choose|i: int| 0 <= i < r.len() && r[i] == dotdot();
        assert(r[0] == root());
        assert(root().len() != dotdot().len());
    }
}

/// Normalising twice is normalising once.
pub proof fn law_normalize_idempotent(p: Seq<char>)
    ensures
        normalized(normalized(p)) == normalized(p),
        resolved(normalized(p)) == resolved(p),
{
    law_normalized_is_normal(p);
    if resolved(p).len() == 0 {
        let none = Seq::<Seq<char>>::empty();
        let one = seq![dot()];
        assert(one.drop_last() =~= none);
        assert(walk(none, one.drop_last()) =~= none);
        assert(one.last() == dot());
        assert(resolved(p) =~= none);
    } else {
        lemma_walk_normal(resolved(p));
    }
}

/// A name and a `..` behind it cancel out, and a `.` changes nothing: wherever they stand in a path.
pub proof fn law_dots_cancel_out(p: Seq<char>, name: Seq<char>, q: Seq<char>)
    requires
        p.len() > 0,
        is_name(name),
        name != dotdot(),
        !absolute(q),
    ensures
        resolved(join(join(join(p, name), dotdot()), q)) == resolved(join(p, q)),
        resolved(join(join(p, dot()), q)) == resolved(join(p, q)),
{
    let none = Seq::<Seq<char>>::empty();
    let ps = components(p);
    let qs = parts(text::split(q, CharClass::Slash));
    let acc = walk(none, ps);
    assert(dotdot().len() == 2 && dotdot()[0] == '.' && dotdot()[1] == '.');
    assert(is_name(dotdot()));
    lemma_name_components(name);
    lemma_name_components(dotdot());
    lemma_small_components();
    lemma_join_components(p, name);
    lemma_join_components(join(p, name), dotdot());
    lemma_join_components(join(join(p, name), dotdot()), q);
    lemma_join_components(p, dot());
    lemma_join_components(join(p, dot()), q);
    lemma_join_components(p, q);
    lemma_walk_add(none, ps, qs);
    let there = ps + seq![name];
    let back = there + seq![dotdot()];
    assert(there.drop_last() =~= ps);
    assert(back.drop_last() =~= there);
    assert(walk(none, there) == acc.push(name));
    assert(root()[0] == '/');
    assert(name != root());
    assert(acc.push(name).drop_last() =~= acc);
    assert(walk(none, back) == acc);
    lemma_walk_add(none, back, qs);
    assert(ps + none =~= ps);
}

/// The `..` right behind the root lead nowhere.
pub proof fn lemma_grounded(cs: Seq<Seq<char>>)
    ensures
        walk(Seq::<Seq<char>>::empty(), grounded(cs)) == walk(Seq::<Seq<char>>::empty(), cs),
    decreases cs.len(),
{
    if cs.len() > 1 && cs[0] == root() && cs[1] == dotdot() {
        let none = Seq::<Seq<char>>::empty();
        let top = seq![root()];
        let tail = cs.skip(2);
        lemma_grounded(cs.remove(1));
        assert(cs.remove(1) =~= top + tail);
        assert(cs =~= cs.take(2) + tail);
        lemma_walk_at_root(top);
        lemma_walk_at_root(cs.take(2));
        lemma_walk_add(none, top, tail);
        lemma_walk_add(none, cs.take(2), tail);
    }
}

/// The root is its own parent.
pub proof fn law_root_is_its_parent(q: Seq<char>)
    requires
        !absolute(q),
    ensures
        resolved(join(join(root(), dotdot()), q)) == resolved(join(root(), q)),
{
    let none = Seq::<Seq<char>>::empty();
    let up = join(root(), dotdot());
    let qs = parts(text::split(q, CharClass::Slash));
    assert(dotdot().len() == 2 && dotdot()[0] == '.' && dotdot()[1] == '.');
    assert(is_name(dotdot()));
    lemma_name_components(dotdot());
    lemma_small_components();
    lemma_join_components(root(), dotdot());
    lemma_join_components(up, q);
    lemma_join_components(root(), q);
    lemma_walk_at_root(components(root()));
    lemma_walk_at_root(components(up));
    lemma_walk_add(none, components(up), qs);
    lemma_walk_add(none, components(root()), qs);
}

// ---------------------------------------------------------------------------------------------
// From one directory to another
// ---------------------------------------------------------------------------------------------

/// [`shared`] counts components at the front that are the same.
pub proof fn lemma_shared(a: Seq<Seq<char>>, b: Seq<Seq<char>>)
    ensures
        0 <= shared(a, b) <= a.len(),
        shared(a, b) <= b.len(),
        a.take(shared(a, b)) == b.take(shared(a, b)),
    decreases a.len(),
{
    if a.len() > 0 && b.len() > 0 && a[0] == b[0] {
        let x = a.skip(1);
        let y = b.skip(1);
        lemma_shared(x, y);
        let n = shared(a, b);
        assert forall|i: int| 0 <= i < n implies #[trigger] a[i] == b[i] by {
            if i > 0 {
                assert(x.take(n - 1)[i - 1] == a[i]);
                assert(y.take(n - 1)[i - 1] == b[i]);
            }
        }
        assert(a.take(n) =~= b.take(n));
    } else {
        assert(a.take(0) =~= b.take(0));
    }
}

/// Behind the root, `..` alone leads nowhere.
proof fn lemma_walk_at_root(cs: Seq<Seq<char>>)
    requires
        cs.len() > 0,
        cs[0] == root(),
        forall|i: int| 1 <= i < cs.len() ==> #[trigger] cs[i] == dotdot(),
    ensures
        walk(Seq::<Seq<char>>::empty(), cs) == seq![root()],
    decreases cs.len(),
{
    let none = Seq::<Seq<char>>::empty();
    let d = cs.drop_last();
    assert(root().len() == 1 && dotdot().len() == 2 && root()[0] == '/' && dot()[0] == '.');
    if cs.len() == 1 {
        assert(walk(none, d) =~= none);
        assert(none.push(root()) =~= seq![root()]);
    } else {
        assert(d[0] == cs[0]);
        assert forall|i: int| 1 <= i < d.len() implies #[trigger] d[i] == dotdot() by {
            assert(d[i] == cs[i]);
        }
        lemma_walk_at_root(d);
        assert(cs[cs.len() - 1] == cs.last());
        assert(seq![root()].last() == root());
    }
}

/// Going up from an absolute directory leads to what its components begin with, once for each of
/// the others, if no `..` stands behind a name.
proof fn lemma_walk_up(cs: Seq<Seq<char>>, k: int)
    requires
        well_formed(cs),
        straight(cs),
        1 <= k <= cs.len(),
        cs[0] == root(),
    ensures
        walk(
            walk(Seq::<Seq<char>>::empty(), cs),
            Seq::new((cs.len() - k) as nat, |i: int| dotdot()),
        ) == walk(Seq::<Seq<char>>::empty(), cs.take(k)),
    decreases cs.len(),
{
    let none = Seq::<Seq<char>>::empty();
    let ups = Seq::new((cs.len() - k) as nat, |i: int| dotdot());
    if k == cs.len() {
        assert(cs.take(k) =~= cs);
        assert(ups.len() == 0);
    } else {
        let d = cs.drop_last();
        let c = cs.last();
        let there = walk(none, cs);
        let w = walk(none, d);
        let fewer = Seq::new((d.len() - k) as nat, |i: int| dotdot());
        let one = seq![dotdot()];
        assert(cs[cs.len() - 1] == c);
        assert(d[0] == cs[0]);
        assert(forall|i: int| 0 <= i < d.len() ==> #[trigger] d[i] == cs[i]);
        assert(root().len() == 1 && root()[0] == '/' && dot().len() == 1 && dotdot().len() == 2);
        lemma_walk_up(d, k);
        assert(d.take(k) =~= cs.take(k));
        assert(is_name(c));
        if c == dotdot() {
            assert forall|i: int| 1 <= i < d.len() implies #[trigger] d[i] == dotdot() by {
                assert(cs[i] == d[i]);
                assert(is_name(cs[i]));
            }
            lemma_walk_at_root(d);
            assert(w.last() == root());
            assert(there == w);
        } else {
            assert(there == w.push(c));
            assert(there.drop_last() =~= w);
        }
        assert(step(there, dotdot()) == w);
        assert(ups =~= one + fewer);
        assert(one.drop_last() =~= none);
        assert(walk(there, one.drop_last()) == there);
        assert(walk(there, one) == w);
        lemma_walk_add(there, one, fewer);
    }
}

/// From an absolute directory in which no `..` stands behind a name, the relative form of any
/// absolute path leads to that path.
pub proof fn law_relative_leads_there(from_dir: Seq<char>, to: Seq<char>)
    requires
        absolute(from_dir),
        straight(components(from_dir)),
        absolute(to),
    ensures
        resolved(join(from_dir, relative(from_dir, to))) == resolved(to),
        normalized(join(from_dir, relative(from_dir, to))) == normalized(to),
{
    let none = Seq::<Seq<char>>::empty();
    let a = components(from_dir);
    let b = components(to);
    let k = shared(a, b);
    let w = way(a, b);
    let r = relative(from_dir, to);
    let m = (a.len() - k) as nat;
    let ups = Seq::new(m, |i: int| dotdot());
    assert(dotdot().len() == 2 && dotdot()[0] == '.' && dotdot()[1] == '.');
    lemma_components_well_formed(from_dir);
    lemma_components_well_formed(to);
    lemma_shared(a, b);
    lemma_shared(a.skip(1), b.skip(1));
    assert(k >= 1);
    assert forall|i: int| 0 <= i < w.len() implies is_name(#[trigger] w[i]) by {
        if i < m {
            assert(w[i] == dotdot());
        } else {
            assert(w[i] == b[k + (i - m)]);
        }
    }
    law_spelling_reads_back(w);
    lemma_small_components();
    if w.len() == 0 {
        assert(render(w) =~= Seq::<char>::empty());
        lemma_join_components(from_dir, dot());
        assert(components(join(from_dir, r)) =~= a + w);
    } else {
        assert(w[0] != root());
        assert(w[0] != dot());
        law_join_reads_both(from_dir, r);
        assert(components(join(from_dir, r)) == a + w);
    }
    assert(a + w =~= a + ups + b.skip(k));
    lemma_walk_add(none, a + ups, b.skip(k));
    lemma_walk_add(none, a, ups);
    lemma_walk_up(a, k);
    assert(b =~= b.take(k) + b.skip(k));
    lemma_walk_add(none, b.take(k), b.skip(k));
}

/// What [`rebased`] writes names, in the current directory, the very place that the candidate
/// names in its own one: for a current directory that is absolute, with no `..` behind a name, and a
/// candidate with an absolute place.
pub proof fn law_rebase_keeps_place(
    candidate: Seq<char>,
    section_cwd: Seq<char>,
    current_cwd: Seq<char>,
)
    requires
        absolute(current_cwd),
        straight(components(current_cwd)),
        absolute(join(section_cwd, candidate)),
    ensures
        normalized(join(current_cwd, rebased(candidate, section_cwd, current_cwd))) == normalized(
            join(section_cwd, candidate),
        ),
{
    let place = join(section_cwd, candidate);
    let abs = normalized(place);
    let a = components(abs);
    let c = components(current_cwd);
    let rel = seen_from(abs, current_cwd);
    lemma_components_well_formed(place);
    lemma_components_well_formed(current_cwd);
    lemma_walk_is_normal(components(place));
    law_normalized_is_normal(place);
    law_normalize_idempotent(place);
    lemma_small_components();
    if rebased(candidate, section_cwd, current_cwd) == abs {
        assert(join(current_cwd, abs) == abs);
    } else if c.is_prefix_of(a) {
        let below = a.skip(c.len() as int);
        assert forall|i: int| 0 <= i < below.len() implies is_name(#[trigger] below[i]) by {
            assert(below[i] == a[i + c.len()]);
        }
        law_spelling_reads_back(below);
        let rest = render(below);
        if rest.len() == 0 {
            lemma_join_components(current_cwd, dot());
            assert(below.len() == 0);
            assert(c + Seq::<Seq<char>>::empty() =~= a);
        } else {
            let k = CharClass::Slash;
            assert(rel =~= dot().push('/') + rest);
            text::lemma_split_join(dot(), '/', rest, k);
            lemma_parts_add(text::split(dot(), k), text::split(rest, k));
            lemma_join_components(current_cwd, rel);
            if below.len() > 0 {
                assert(is_name(below[0]));
            } else {
                assert(render(below) =~= Seq::<char>::empty());
            }
            assert(!absolute(rest));
            assert(components(rest) == below);
            lemma_part_names(rest);
            assert(front(rest).len() == 0) by {
                if front(rest).len() > 0 {
                    assert(components(rest)[0] == front(rest)[0]);
                    assert(below[0] == dot());
                }
            }
            assert(components(rest) =~= parts(text::split(rest, k)));
            assert(components(join(current_cwd, rel)) =~= c + below);
            assert(c + below =~= a);
        }
    } else {
        law_relative_leads_there(current_cwd, abs);
    }
}

/// What [`rebased`] writes takes no more bytes than the absolute path.
pub proof fn law_rebase_is_no_longer(
    candidate: Seq<char>,
    section_cwd: Seq<char>,
    current_cwd: Seq<char>,
)
    ensures
        text::byte_len(rebased(candidate, section_cwd, current_cwd)) <= text::byte_len(
            normalized(join(section_cwd, candidate)),
        ),
{
}

// ---------------------------------------------------------------------------------------------
// What the operations give
// ---------------------------------------------------------------------------------------------

proof fn lemma_parts_filter(ps: Seq<Seq<char>>)
    ensures
        parts(ps) == ps.filter(|t: Seq<char>| t.len() > 0 && t != seq!['.']),
    decreases ps.len(),
{
    reveal(Seq::filter);
    if ps.len() > 0 {
        lemma_parts_filter(ps.drop_last());
    }
}

/// The first piece of a path ends at the first separator.
proof fn lemma_first_piece(p: Seq<char>)
    ensures
        text::split(p, CharClass::Slash).len() > 0,
        text::split(p, CharClass::Slash)[0] == p.take(text::until(p, CharClass::Slash)),
{
    let k = CharClass::Slash;
    let n = text::until(p, k);
    let a = p.take(n);
    text::lemma_until_run(p, k);
    assert forall|i: int| 0 <= i < a.len() implies !k.has(#[trigger] a[i]) by {
        assert(a[i] == p[i]);
    }
    text::lemma_split_whole(a, k);
    if n < p.len() {
        let b = p.skip(n + 1);
        assert(p =~= a.push(p[n]) + b);
        text::lemma_split_join(a, p[n], b, k);
    } else {
        assert(a =~= p);
    }
}

/// The components of a path are what stands between its separators, without what is empty and
/// without `.`; before them the root, where the path begins with a separator, or `.`, where that is
/// its first part.
pub proof fn law_components_stand_between_separators(p: Seq<char>)
    ensures
        components(p) == (if p.len() > 0 && p[0] == '/' {
            seq![seq!['/']]
        } else if p.len() > 0 && p[0] == '.' && (p.len() == 1 || p[1] == '/') {
            seq![seq!['.']]
        } else {
            Seq::<Seq<char>>::empty()
        }) + text::split(p, CharClass::Slash).filter(
            |t: Seq<char>| t.len() > 0 && t != seq!['.'],
        ),
{
    let k = CharClass::Slash;
    let n = text::until(p, k);
    lemma_parts_filter(text::split(p, k));
    lemma_first_piece(p);
    text::lemma_until_run(p, k);
    if p.len() > 0 && p[0] == '.' && (p.len() == 1 || p[1] == '/') {
        text::lemma_until(p, k, 1);
        assert(p.take(1) =~= dot());
    } else if !absolute(p) && p.take(n) == dot() {
        assert(p.take(n).len() == n && dot().len() == 1 && dot()[0] == '.');
        assert(p.take(n)[0] == p[0]);
    }
    assert(root() =~= seq!['/']);
    assert(dot() =~= seq!['.']);
}

/// A path taken from another is the other with it behind a separator, which is not doubled; an
/// absolute one stays as it is.
pub proof fn law_join_puts_one_separator(base: Seq<char>, p: Seq<char>)
    ensures
        p.len() > 0 && p[0] == '/' ==> join(base, p) == p,
        base.len() == 0 ==> join(base, p) == p,
        !(p.len() > 0 && p[0] == '/') && base.len() > 0 && base.last() != '/' ==> join(base, p)
            == base + seq!['/'] + p,
        !(p.len() > 0 && p[0] == '/') && base.len() > 0 && base.last() == '/' ==> join(base, p)
            == base + p,
{
    if base.len() == 0 {
        assert(base + p =~= p);
    }
    assert(base.push('/') + p =~= base + seq!['/'] + p);
}

/// A list of components is spelled with one separator between two of them, and none doubled behind
/// the root.
pub proof fn law_spelling_puts_one_separator(cs: Seq<Seq<char>>, name: Seq<char>)
    requires
        well_formed(cs),
        is_name(name),
    ensures
        render(Seq::<Seq<char>>::empty()) == Seq::<char>::empty(),
        render(seq![name]) == name,
        render(seq![seq!['/']]) == seq!['/'],
        render(seq![seq!['.']]) == seq!['.'],
        cs == seq![seq!['/']] ==> render(cs.push(name)) == seq!['/'] + name,
        cs.len() > 0 && cs != seq![seq!['/']] ==> render(cs.push(name)) == render(cs) + seq!['/']
            + name,
{
    let none = Seq::<Seq<char>>::empty();
    assert(root() =~= seq!['/']);
    assert(dot() =~= seq!['.']);
    lemma_render_one(name);
    lemma_render_one(root());
    lemma_render_one(dot());
    assert(name[0] != '/');
    assert(cs.push(name).drop_last() =~= cs);
    assert(cs.push(name).last() == name);
    if cs == seq![root()] {
        assert(render(cs.push(name)) =~= seq!['/'] + name);
    } else if cs.len() > 0 {
        law_spelling_reads_back(cs);
        let r = render(cs);
        if r.last() == '/' {
            let d = cs.drop_last();
            let t = cs.last();
            assert(cs[cs.len() - 1] == t);
            assert(t.len() > 0);
            assert(r.last() == t.last());
            if is_name(t) {
                assert(t[t.len() - 1] != '/');
            }
            assert(t == root());
            assert(cs =~= seq![root()]);
        }
        assert(render(cs.push(name)) =~= r + seq!['/'] + name);
    }
}

/// One component more on any list is spelled behind a separator, which is not doubled; the root
/// begins the spelling anew.
pub proof fn law_spelling_goes_on(cs: Seq<Seq<char>>, c: Seq<char>)
    ensures
        c.len() > 0 && c[0] == '/' ==> render(cs.push(c)) == c,
        !(c.len() > 0 && c[0] == '/') && render(cs).len() == 0 ==> render(cs.push(c)) == c,
        !(c.len() > 0 && c[0] == '/') && render(cs).len() > 0 && render(cs).last() == '/' ==> render(
            cs.push(c),
        ) == render(cs) + c,
        !(c.len() > 0 && c[0] == '/') && render(cs).len() > 0 && render(cs).last() != '/' ==> render(
            cs.push(c),
        ) == render(cs) + seq!['/'] + c,
{
    assert(cs.push(c).drop_last() =~= cs);
    assert(cs.push(c).last() == c);
    law_join_puts_one_separator(render(cs), c);
}

proof fn lemma_render_one(t: Seq<char>)
    ensures
        render(seq![t]) == t,
{
    let one = seq![t];
    assert(one.drop_last() =~= Seq::<Seq<char>>::empty());
    assert(render(one.drop_last()) =~= Seq::<char>::empty());
    assert(one.last() == t);
    assert(join(Seq::<char>::empty(), t) =~= t);
}

/// Two paths lead to the same place if they differ in nothing but a name with `..` behind it, a
/// `.` in front, or a `..` right behind the root; and a path in normal form leads where it says.
pub proof fn law_resolved_by_cancelling(
    p: Seq<char>,
    q: Seq<char>,
    a: Seq<Seq<char>>,
    name: Seq<char>,
    b: Seq<Seq<char>>,
)
    requires
        is_name(name),
        name != dotdot(),
    ensures
        components(p) == a + seq![name, dotdot()] + b && components(q) == a + b ==> resolved(p)
            == resolved(q),
        components(p) == seq![dot()] + b && components(q) == b ==> resolved(p) == resolved(q),
        components(p) == seq![root(), dotdot()] + b && components(q) == seq![root()] + b
            ==> resolved(p) == resolved(q),
        normal(components(p)) ==> resolved(p) == components(p),
{
    let none = Seq::<Seq<char>>::empty();
    let acc = walk(none, a);
    let two = seq![name, dotdot()];
    let one = seq![name];
    assert(root().len() == 1 && root()[0] == '/' && dot().len() == 1 && dotdot().len() == 2);
    assert(name[0] != '/');
    assert(two.drop_last() =~= one);
    assert(one.drop_last() =~= none);
    assert(walk(acc, none) == acc);
    assert(walk(acc, one) == acc.push(name));
    assert(acc.push(name).drop_last() =~= acc);
    assert(walk(acc, two) == acc);
    lemma_walk_add(none, a + two, b);
    lemma_walk_add(none, a, two);
    lemma_walk_add(none, a, b);
    let d = seq![dot()];
    assert(d.drop_last() =~= none);
    assert(d.last() == dot());
    assert(walk(none, d.drop_last()) == none);
    assert(walk(none, d) == none);
    lemma_walk_add(none, d, b);
    assert(none + b =~= b);
    let up = seq![root(), dotdot()];
    let top = seq![root()];
    lemma_walk_at_root(up);
    lemma_walk_at_root(top);
    lemma_walk_add(none, up, b);
    lemma_walk_add(none, top, b);
    if normal(components(p)) {
        lemma_walk_normal(components(p));
    }
}

/// A normalised path is spelled from its components; it is `.` where none is left.
pub proof fn law_normalized_is_spelled(p: Seq<char>)
    ensures
        normalized(p) == render(components(normalized(p))),
        resolved(p).len() == 0 ==> normalized(p) == seq!['.'],
        resolved(p).len() > 0 ==> normalized(p) == render(resolved(p)),
{
    law_normalized_is_normal(p);
    lemma_render_one(dot());
    assert(dot() =~= seq!['.']);
}

/// The relative form of a path goes up from what it shares with the directory, no further, and then
/// down; it is `.` where there is nowhere to go.
pub proof fn law_relative_goes_up_no_further(from_dir: Seq<char>, to: Seq<char>, k: int)
    requires
        0 <= k <= components(from_dir).len(),
        k <= components(to).len(),
        components(from_dir).take(k) == components(to).take(k),
        k < components(from_dir).len() && k < components(to).len() ==> components(from_dir)[k]
            != components(to)[k],
    ensures
        k == components(from_dir).len() && k == components(to).len() ==> relative(from_dir, to)
            == seq!['.'],
        components(from_dir).len() + components(to).len() > 2 * k ==> relative(from_dir, to) == render(
            Seq::new((components(from_dir).len() - k) as nat, |i: int| seq!['.', '.'])
                + components(to).skip(k),
        ),
{
    let a = components(from_dir);
    let b = components(to);
    lemma_shared_is(a, b, k);
    let ups = Seq::new((a.len() - k) as nat, |i: int| seq!['.', '.']);
    let w = way(a, b);
    assert(dotdot() =~= seq!['.', '.']);
    assert(dot() =~= seq!['.']);
    assert(Seq::new((a.len() - k) as nat, |i: int| dotdot()) =~= ups);
    assert(w == ups + b.skip(k));
    if a.len() == k && b.len() == k {
        assert(w =~= Seq::<Seq<char>>::empty());
        assert(render(w) =~= Seq::<char>::empty());
    } else {
        lemma_components_well_formed(to);
        if b.len() > k {
            assert(w.last() == b[b.len() - 1]);
        } else {
            assert(w.last() == ups[ups.len() - 1]);
        }
        lemma_render_not_empty(w);
    }
}

proof fn lemma_shared_is(a: Seq<Seq<char>>, b: Seq<Seq<char>>, k: int)
    requires
        0 <= k <= a.len(),
        k <= b.len(),
        a.take(k) == b.take(k),
        k < a.len() && k < b.len() ==> a[k] != b[k],
    ensures
        shared(a, b) == k,
    decreases a.len(),
{
    if k > 0 {
        assert(a.take(k)[0] == b.take(k)[0]);
        assert(a.skip(1).take(k - 1) =~= a.take(k).skip(1));
        assert(b.skip(1).take(k - 1) =~= b.take(k).skip(1));
        lemma_shared_is(a.skip(1), b.skip(1), k - 1);
    }
}

/// Components that are not empty spell something.
proof fn lemma_render_not_empty(cs: Seq<Seq<char>>)
    requires
        cs.len() > 0,
        cs.last().len() > 0,
    ensures
        render(cs).len() > 0,
{
}

/// A path at or below the directory is seen as `.`, or with `./` in front of what is left of it; any
/// other is seen by its relative form.
pub proof fn law_path_below_is_seen_with_dot(p: Seq<char>, cwd: Seq<char>, below: Seq<Seq<char>>)
    ensures
        components(p) == components(cwd) ==> seen_from(p, cwd) == seq!['.'],
        components(p) == components(cwd) + below && below.len() > 0 ==> seen_from(p, cwd)
            == seq!['.', '/'] + render(below),
        components(p).len() < components(cwd).len() || components(p).take(
            components(cwd).len() as int,
        ) != components(cwd) ==> seen_from(p, cwd) == relative(cwd, p),
{
    let a = components(p);
    let c = components(cwd);
    assert(dot() =~= seq!['.']);
    if a == c {
        assert(a.skip(c.len() as int) =~= Seq::<Seq<char>>::empty());
        assert(render(a.skip(c.len() as int)) =~= Seq::<char>::empty());
    }
    if a == c + below && below.len() > 0 {
        assert(c.is_prefix_of(a));
        assert(a.skip(c.len() as int) =~= below);
        lemma_components_well_formed(p);
        assert(below.last() == a[a.len() - 1]);
        lemma_render_not_empty(below);
    }
    if c.is_prefix_of(a) {
        assert(a.take(c.len() as int) =~= c);
    }
}

/// What is written for a candidate is its place as seen from the present directory, unless the
/// absolute path takes fewer bytes.
pub proof fn law_rebase_chooses_by_bytes(
    candidate: Seq<char>,
    section_cwd: Seq<char>,
    current_cwd: Seq<char>,
)
    ensures
        ({
            let abs = normalized(join(section_cwd, candidate));
            let rel = seen_from(abs, current_cwd);
            let written = rebased(candidate, section_cwd, current_cwd);
            let shorter = vstd::utf8::encode_utf8(abs).len() < vstd::utf8::encode_utf8(rel).len();
            (shorter ==> written == abs) && (!shorter ==> written == rel)
        }),
{
}

/// Of the `..` right behind the root none is left, and nothing else is taken away.
pub proof fn law_grounded_drops_behind_root(cs: Seq<Seq<char>>, b: Seq<Seq<char>>)
    ensures
        cs == seq![root(), dotdot()] + b ==> grounded(cs) == grounded(seq![root()] + b),
        !(cs.len() > 1 && cs[0] == root() && cs[1] == dotdot()) ==> grounded(cs) == cs,
{
    if cs == seq![root(), dotdot()] + b {
        assert(cs.remove(1) =~= seq![root()] + b);
    }
}

} // verus!
