//! Candidates for paths in a line of terminal output.

use vstd::prelude::*;
use crate::fs;
use crate::fs::Filesystem;
use crate::text;
use crate::text::{begins_str, chars_of, count_trailing, drop_empty, pieces_of, text_of, words_str,
    CharClass};

verus! {

// ---------------------------------------------------------------------------------------------
// Tokens
// ---------------------------------------------------------------------------------------------

/// The characters of a line, with `None` for each that separates tokens. A space after a backslash
/// stands for itself, and the backslash for nothing.
pub open spec fn lex(s: Seq<char>) -> Seq<Option<char>>
    decreases s.len(),
{
    if s.len() == 0 {
        Seq::<Option<char>>::empty()
    } else if s[0] == '\\' && s.len() > 1 && s[1] == ' ' {
        seq![Some(' ')] + lex(s.skip(2))
    } else if CharClass::Break.has(s[0]) {
        seq![None::<char>] + lex(s.skip(1))
    } else {
        seq![Some(s[0])] + lex(s.skip(1))
    }
}

/// The tokens of a line.
pub open spec fn tokens(line: Seq<char>) -> Seq<Seq<char>> {
    text::nonempty(text::pieces(lex(line)))
}

/// Splits a line into tokens at white space, quotes and brackets; an escaped space does not split.
pub fn tokenize(line: &str) -> (r: Vec<String>)
    ensures
        r.deep_view() == tokens(line@),
{
    let cs: Vec<char> = chars_of(line);
    let mut marks: Vec<Option<char>> = Vec::new();
    let mut i: usize = 0;
    assert(cs@.skip(0) =~= cs@);
    assert(marks@ + lex(cs@) =~= lex(cs@));
    while i < cs.len()
        invariant
            i <= cs@.len(),
            marks@ + lex(cs@.skip(i as int)) == lex(cs@),
        decreases cs@.len() - i,
    {
        let ghost before = marks@;
        let ghost rest = cs@.skip(i as int);
        assert(rest[0] == cs@[i as int]);
        if cs[i] == '\\' && i + 1 < cs.len() && cs[i + 1] == ' ' {
            assert(rest[1] == cs@[i + 1]);
            assert(rest.skip(2) =~= cs@.skip(i + 2));
            marks.push(Some(' '));
            i = i + 2;
        } else {
            if i + 1 < cs.len() {
                assert(rest[1] == cs@[i + 1]);
            }
            assert(rest.skip(1) =~= cs@.skip(i + 1));
            if CharClass::Break.test(cs[i]) {
                marks.push(None);
            } else {
                marks.push(Some(cs[i]));
            }
            i = i + 1;
        }
        assert(marks@ + lex(cs@.skip(i as int)) =~= before + lex(rest));
    }
    assert(marks@ =~= lex(cs@));
    drop_empty(pieces_of(&marks))
}

// ---------------------------------------------------------------------------------------------
// What follows a path
// ---------------------------------------------------------------------------------------------

/// A text without what prose and tools append to a path: list marks, then stops and colons, then
/// a line number behind a colon.
pub open spec fn trim_suffix(s: Seq<char>) -> Seq<char> {
    let t = text::trim_end(text::trim_end(s, CharClass::ListMark), CharClass::StopMark);
    let d = text::trim_end(t, CharClass::Digit);
    if d.len() < t.len() && d.len() > 0 && d.last() == ':' {
        d.drop_last()
    } else {
        t
    }
}

/// The number of characters that [`trim_suffix`] leaves of `cs[lo..hi]`, counted from `lo`.
fn kept_len(cs: &Vec<char>, lo: usize, hi: usize) -> (r: usize)
    requires
        lo <= hi <= cs@.len(),
    ensures
        lo + r <= hi,
        cs@.subrange(lo as int, lo + r) == trim_suffix(cs@.subrange(lo as int, hi as int)),
{
    let ghost s = cs@.subrange(lo as int, hi as int);
    let a: usize = hi - count_trailing(cs, lo, hi, CharClass::ListMark);
    assert(cs@.subrange(lo as int, a as int) =~= text::trim_end(s, CharClass::ListMark));
    let b: usize = a - count_trailing(cs, lo, a, CharClass::StopMark);
    assert(cs@.subrange(lo as int, b as int) =~= text::trim_end(
        cs@.subrange(lo as int, a as int),
        CharClass::StopMark,
    ));
    let c: usize = b - count_trailing(cs, lo, b, CharClass::Digit);
    let ghost d = cs@.subrange(lo as int, c as int);
    assert(d =~= text::trim_end(cs@.subrange(lo as int, b as int), CharClass::Digit));
    if c < b && c > lo && cs[c - 1] == ':' {
        assert(d.last() == cs@[c - 1]);
        assert(cs@.subrange(lo as int, c - 1) =~= d.drop_last());
        c - 1 - lo
    } else {
        if c > lo {
            assert(d.last() == cs@[c - 1]);
        }
        b - lo
    }
}

/// Cuts off what does not belong to a path.
pub fn trim_path_suffix<'a>(s: &'a str) -> (r: &'a str)
    ensures
        r@ == trim_suffix(s@),
{
    let cs: Vec<char> = chars_of(s);
    let n: usize = kept_len(&cs, 0, cs.len());
    assert(cs@.subrange(0, cs@.len() as int) =~= s@);
    s.substring_char(0, n)
}

// ---------------------------------------------------------------------------------------------
// Candidates
// ---------------------------------------------------------------------------------------------

/// A text of more than one character.
pub open spec fn long(s: Seq<char>) -> Option<Seq<char>> {
    if s.len() > 1 {
        Some(s)
    } else {
        None
    }
}

/// A text of at least one character.
pub open spec fn some_text(s: Seq<char>) -> Option<Seq<char>> {
    if s.len() > 0 {
        Some(s)
    } else {
        None
    }
}

/// Whether an absolute path may begin after position `i`: a `:` or `=` with a `/` behind it.
pub open spec fn opens_path(t: Seq<char>, i: int) -> bool {
    0 <= i && i + 1 < t.len() && (t[i] == ':' || t[i] == '=') && t[i + 1] == '/'
}

/// The first position, from `i` on, after which an absolute path may begin.
pub open spec fn first_opening(t: Seq<char>, i: int) -> Option<int>
    decreases t.len() - i,
{
    if i + 1 >= t.len() {
        None
    } else if opens_path(t, i) {
        Some(i)
    } else {
        first_opening(t, i + 1)
    }
}

/// The absolute path in a token: the token itself, or what follows its first `:/` or `=/`.
pub open spec fn absolute_in(t: Seq<char>) -> Option<Seq<char>> {
    if t.len() > 1 && t[0] == '/' {
        long(trim_suffix(t))
    } else {
        match first_opening(t, 0) {
            Some(i) => if t.len() - (i + 1) > 1 {
                long(trim_suffix(t.skip(i + 1)))
            } else {
                None
            },
            None => None,
        }
    }
}

/// The relative path in a token: one with a `/`, but not in front.
pub open spec fn relative_in(t: Seq<char>) -> Option<Seq<char>> {
    if t.contains('/') && t[0] != '/' {
        some_text(trim_suffix(t))
    } else {
        None
    }
}

/// What a link begins with.
pub open spec fn http() -> Seq<char> {
    seq!['h', 't', 't', 'p']
}

/// The bare file name in a token: one with a `.` and without a `/`, that is no link.
pub open spec fn dotword_in(t: Seq<char>) -> Option<Seq<char>> {
    if !t.contains('/') && t.contains('.') && !text::begins(t, http()) {
        some_text(trim_suffix(t))
    } else {
        None
    }
}

/// The three kinds of candidates that a token can hold.
pub enum Kind {
    Absolute,
    Relative,
    Dotword,
}

/// The candidate of the kind in a token.
pub open spec fn pick(kind: Kind, t: Seq<char>) -> Option<Seq<char>> {
    match kind {
        Kind::Absolute => absolute_in(t),
        Kind::Relative => relative_in(t),
        Kind::Dotword => dotword_in(t),
    }
}

/// The candidates of the kind in a list of tokens, in their order.
pub open spec fn picks(kind: Kind, ts: Seq<Seq<char>>) -> Seq<Seq<char>>
    decreases ts.len(),
{
    if ts.len() == 0 {
        ts
    } else {
        match pick(kind, ts.last()) {
            Some(c) => picks(kind, ts.drop_last()).push(c),
            None => picks(kind, ts.drop_last()),
        }
    }
}

/// The absolute paths in a line.
pub open spec fn absolutes(line: Seq<char>) -> Seq<Seq<char>> {
    picks(Kind::Absolute, tokens(line))
}

/// The relative paths in a line.
pub open spec fn relatives(line: Seq<char>) -> Seq<Seq<char>> {
    picks(Kind::Relative, tokens(line))
}

/// The bare file names in a line.
pub open spec fn dotwords(line: Seq<char>) -> Seq<Seq<char>> {
    picks(Kind::Dotword, tokens(line))
}

/// Tests whether a character is in a vector.
fn has_char(cs: &Vec<char>, c: char) -> (r: bool)
    ensures
        r == cs@.contains(c),
{
    let mut i: usize = 0;
    while i < cs.len()
        invariant
            i <= cs@.len(),
            forall|k: int| 0 <= k < i ==> cs@[k] != c,
        decreases cs@.len() - i,
    {
        if cs[i] == c {
            return true;
        }
        i = i + 1;
    }
    false
}

/// Finds the absolute path in a token.
fn pick_absolute(token: &str) -> (r: Option<String>)
    ensures
        match r {
            Some(c) => absolute_in(token@) == Some(c@),
            None => absolute_in(token@) is None,
        },
{
    let cs: Vec<char> = chars_of(token);
    let mut from: usize = 0;
    if cs.len() > 1 && cs[0] == '/' {
        assert(cs@.subrange(0, cs@.len() as int) =~= token@);
    } else {
        let mut i: usize = 0;
        while i < cs.len() && !(i + 1 < cs.len() && (cs[i] == ':' || cs[i] == '=') && cs[i + 1]
            == '/')
            invariant
                i <= cs@.len(),
                first_opening(cs@, 0) == first_opening(cs@, i as int),
            decreases cs@.len() - i,
        {
            i = i + 1;
        }
        if cs.len() - i <= 1 {
            return None;
        }
        from = i + 1;
        if cs.len() - from <= 1 {
            return None;
        }
        assert(cs@.subrange(from as int, cs@.len() as int) =~= token@.skip(from as int));
    }
    let n: usize = kept_len(&cs, from, cs.len());
    if n > 1 {
        Some(text_of(&cs, from, from + n))
    } else {
        None
    }
}

/// The trimmed token, unless nothing is left of it.
fn trimmed(token: &str) -> (r: Option<String>)
    ensures
        match r {
            Some(c) => some_text(trim_suffix(token@)) == Some(c@),
            None => some_text(trim_suffix(token@)) is None,
        },
{
    let t: &str = trim_path_suffix(token);
    if t.is_empty() {
        None
    } else {
        Some(t.to_owned())
    }
}

/// Finds the relative path in a token.
fn pick_relative(token: &str) -> (r: Option<String>)
    ensures
        match r {
            Some(c) => relative_in(token@) == Some(c@),
            None => relative_in(token@) is None,
        },
{
    let cs: Vec<char> = chars_of(token);
    if has_char(&cs, '/') && cs[0] != '/' {
        trimmed(token)
    } else {
        None
    }
}

/// Finds the bare file name in a token.
fn pick_dotword(token: &str) -> (r: Option<String>)
    ensures
        match r {
            Some(c) => dotword_in(token@) == Some(c@),
            None => dotword_in(token@) is None,
        },
{
    proof {
        reveal_strlit("http");
        assert("http"@ =~= http());
    }
    let cs: Vec<char> = chars_of(token);
    if !has_char(&cs, '/') && has_char(&cs, '.') && !begins_str(token, "http") {
        trimmed(token)
    } else {
        None
    }
}

/// Collects the candidates of a kind from the tokens of a line.
fn extract(line: &str, kind: Kind) -> (r: Vec<String>)
    ensures
        r.deep_view() == picks(kind, tokens(line@)),
{
    let ts: Vec<String> = tokenize(line);
    let mut out: Vec<String> = Vec::new();
    let mut i: usize = 0;
    assert(out.deep_view() =~= picks(kind, ts.deep_view().take(0)));
    while i < ts.len()
        invariant
            i <= ts@.len(),
            out.deep_view() == picks(kind, ts.deep_view().take(i as int)),
        decreases ts@.len() - i,
    {
        let ghost before = out.deep_view();
        assert(ts.deep_view().take(i + 1).drop_last() =~= ts.deep_view().take(i as int));
        assert(ts.deep_view().take(i + 1).last() == ts@[i as int]@);
        let found: Option<String> = match kind {
            Kind::Absolute => pick_absolute(ts[i].as_str()),
            Kind::Relative => pick_relative(ts[i].as_str()),
            Kind::Dotword => pick_dotword(ts[i].as_str()),
        };
        if let Some(c) = found {
            let ghost text = c@;
            out.push(c);
            assert(out.deep_view() =~= before.push(text));
        }
        i = i + 1;
    }
    assert(ts.deep_view().take(i as int) =~= ts.deep_view());
    out
}

/// The absolute paths in a line; also those behind a `:` or `=`, as in `PREFIX=/home/user`.
pub fn extract_absolute(line: &str) -> (r: Vec<String>)
    ensures
        r.deep_view() == absolutes(line@),
{
    extract(line, Kind::Absolute)
}

/// The relative paths in a line: they contain `/`, but do not start with it.
pub fn extract_relative(line: &str) -> (r: Vec<String>)
    ensures
        r.deep_view() == relatives(line@),
{
    extract(line, Kind::Relative)
}

/// The single words with a dot in a line, which are likely file names.
pub fn extract_dotwords(line: &str) -> (r: Vec<String>)
    ensures
        r.deep_view() == dotwords(line@),
{
    extract(line, Kind::Dotword)
}

// ---------------------------------------------------------------------------------------------
// Paths with spaces that are not escaped
// ---------------------------------------------------------------------------------------------

/// The most words that are joined into one path.
pub const JOINED_WORDS: usize = 20;

/// The words from `i` to `j`, with a space between them.
pub open spec fn joined(ws: Seq<Seq<char>>, i: int, j: int) -> Seq<char>
    decreases j - i,
{
    if j <= i {
        ws[i]
    } else {
        joined(ws, i, j - 1).push(' ') + ws[j]
    }
}

/// Whether a text, once trimmed, is a path of more than one character that exists.
pub open spec fn hits(s: Seq<char>, disk: fs::Disk) -> bool {
    trim_suffix(s).len() > 1 && disk.paths.contains(trim_suffix(s))
}

/// The first word, from `j` on, up to which the words from `i` make a path that exists.
pub open spec fn first_hit(ws: Seq<Seq<char>>, i: int, j: int, disk: fs::Disk) -> Option<int>
    decreases ws.len() - j,
{
    if j >= ws.len() || j >= i + JOINED_WORDS {
        None
    } else if hits(joined(ws, i, j), disk) {
        Some(j)
    } else {
        first_hit(ws, i, j + 1, disk)
    }
}

/// The word behind the shortest path that begins at word `i`, if there is one.
pub open spec fn path_end(ws: Seq<Seq<char>>, i: int, disk: fs::Disk) -> Option<int> {
    if ws[i].len() > 1 && ws[i][0] == '/' {
        match first_hit(ws, i, i, disk) {
            Some(j) => Some(j + 1),
            None => None,
        }
    } else {
        None
    }
}

/// The paths that exist among the words from `i` on; of the words of one path none begins another.
pub open spec fn greedy_from(ws: Seq<Seq<char>>, i: int, disk: fs::Disk) -> Seq<Seq<char>>
    decreases ws.len() - i,
{
    if i >= ws.len() {
        Seq::<Seq<char>>::empty()
    } else {
        proof {
            lemma_first_hit(ws, i, i, disk);
        }
        match path_end(ws, i, disk) {
            Some(k) => seq![trim_suffix(joined(ws, i, k - 1))] + greedy_from(ws, k, disk),
            None => greedy_from(ws, i + 1, disk),
        }
    }
}

/// The absolute paths in a line that exist, found by joining words.
pub open spec fn greedy(line: Seq<char>, disk: fs::Disk) -> Seq<Seq<char>> {
    greedy_from(text::words(line, CharClass::AsciiWhite), 0, disk)
}

/// What [`first_hit`] finds lies in its range and hits.
pub proof fn lemma_first_hit(ws: Seq<Seq<char>>, i: int, j: int, disk: fs::Disk)
    ensures
        match first_hit(ws, i, j, disk) {
            Some(k) => j <= k < ws.len() && k < i + JOINED_WORDS && hits(joined(ws, i, k), disk),
            None => true,
        },
    decreases ws.len() - j,
{
    if j < ws.len() && j < i + JOINED_WORDS && !hits(joined(ws, i, j), disk) {
        lemma_first_hit(ws, i, j + 1, disk);
    }
}

/// Joins words to absolute paths that exist, for listings in which spaces are not escaped.
pub fn extract_absolute_greedy<F: Filesystem + ?Sized>(line: &str, fs: &F) -> (r: Vec<String>)
    ensures
        r.deep_view() == greedy(line@, fs.disk()),
{
    let words: Vec<String> = words_str(line, CharClass::AsciiWhite);
    let ghost ws = words.deep_view();
    let ghost disk = fs.disk();
    let mut out: Vec<String> = Vec::new();
    let mut i: usize = 0;
    assert(out.deep_view() + greedy_from(ws, 0, disk) =~= greedy_from(ws, 0, disk));
    while i < words.len()
        invariant
            i <= words@.len(),
            ws == words.deep_view(),
            disk == fs.disk(),
            out.deep_view() + greedy_from(ws, i as int, disk) == greedy_from(ws, 0, disk),
        decreases words@.len() - i,
    {
        let ghost before = out.deep_view();
        assert(ws[i as int] == words@[i as int]@);
        let first: Vec<char> = chars_of(words[i].as_str());
        let mut next: usize = i + 1;
        if first.len() > 1 && first[0] == '/' {
            let mut candidate: String = words[i].clone();
            let mut j: usize = i;
            let mut found: Option<String> = None;
            while found.is_none() && j < words.len() && j - i < JOINED_WORDS
                invariant
                    i <= j <= words@.len(),
                    i < words@.len(),
                    next == i + 1,
                    ws == words.deep_view(),
                    disk == fs.disk(),
                    found is None && j < words@.len() && j - i < JOINED_WORDS ==> candidate@
                        == joined(ws, i as int, j as int),
                    found is None ==> first_hit(ws, i as int, i as int, disk) == first_hit(
                        ws,
                        i as int,
                        j as int,
                        disk,
                    ),
                    found matches Some(f) ==> first_hit(ws, i as int, i as int, disk) == Some(
                        j as int,
                    ) && f@ == trim_suffix(joined(ws, i as int, j as int)) && j < words@.len(),
                decreases words@.len() - j, (if found is None { 1int } else { 0int }),
            {
                let t: &str = trim_path_suffix(candidate.as_str());
                let size: usize = t.unicode_len();
                if size > 1 && fs.path_exists(t) {
                    found = Some(t.to_owned());
                } else {
                    j = j + 1;
                    if j < words.len() {
                        candidate.push(' ');
                        candidate.append(words[j].as_str());
                        assert(ws[j as int] == words@[j as int]@);
                    }
                }
            }
            if let Some(f) = found {
                next = j + 1;
                let ghost text = f@;
                out.push(f);
                assert(out.deep_view() =~= before.push(text));
            }
        }
        assert(out.deep_view() + greedy_from(ws, next as int, disk) =~= before + greedy_from(
            ws,
            i as int,
            disk,
        ));
        i = next;
    }
    assert(out.deep_view() + greedy_from(ws, i as int, disk) =~= out.deep_view());
    out
}

// ---------------------------------------------------------------------------------------------
// Laws
// ---------------------------------------------------------------------------------------------

/// No token is empty.
pub proof fn law_tokens_not_empty(line: Seq<char>, k: int)
    requires
        0 <= k < tokens(line).len(),
    ensures
        tokens(line)[k].len() > 0,
{
    text::lemma_nonempty_members(text::pieces(lex(line)), k);
}

/// A text with a backslash before each of its spaces, as a shell inserts it.
pub open spec fn escaped(s: Seq<char>) -> Seq<char>
    decreases s.len(),
{
    if s.len() == 0 {
        s
    } else if s[0] == ' ' {
        seq!['\\', ' '] + escaped(s.skip(1))
    } else {
        seq![s[0]] + escaped(s.skip(1))
    }
}

proof fn lemma_lex_escaped(s: Seq<char>)
    requires
        forall|i: int| 0 <= i < s.len() && CharClass::Break.has(#[trigger] s[i]) ==> s[i] == ' ',
    ensures
        lex(escaped(s)).len() == s.len(),
        forall|i: int| 0 <= i < s.len() ==> lex(escaped(s))[i] == Some(#[trigger] s[i]),
        escaped(s).len() > 0 ==> escaped(s)[0] != ' ',
    decreases s.len(),
{
    if s.len() > 0 {
        let t = s.skip(1);
        let e = escaped(s);
        assert forall|i: int| 0 <= i < t.len() && CharClass::Break.has(#[trigger] t[i]) implies t[i]
            == ' ' by {
            assert(t[i] == s[i + 1]);
        }
        lemma_lex_escaped(t);
        if s[0] == ' ' {
            assert(e[0] == '\\' && e[1] == ' ');
            assert(e.skip(2) =~= escaped(t));
            assert(lex(e) =~= seq![Some(' ')] + lex(escaped(t)));
        } else {
            assert(e[0] == s[0]);
            assert(e.skip(1) =~= escaped(t));
            if e.len() > 1 {
                assert(e[1] == escaped(t)[0]);
            }
            assert(lex(e) =~= seq![Some(s[0])] + lex(escaped(t)));
        }
        assert forall|i: int| 0 <= i < s.len() implies lex(e)[i] == Some(#[trigger] s[i]) by {
            if i > 0 {
                assert(s[i] == t[i - 1]);
            }
        }
    }
}

/// A path whose spaces are escaped is read as one token, and the token is the path: for any text
/// in which only spaces could separate tokens.
pub proof fn law_escaped_text_is_one_token(s: Seq<char>)
    requires
        s.len() > 0,
        forall|i: int| 0 <= i < s.len() && CharClass::Break.has(#[trigger] s[i]) ==> s[i] == ' ',
    ensures
        tokens(escaped(s)) == seq![s],
{
    lemma_lex_escaped(s);
    text::lemma_pieces_whole(lex(escaped(s)), s);
    let one = seq![s];
    let none = one.drop_last();
    assert(none.len() == 0);
    assert(text::nonempty(none) =~= none);
    assert(one.last() == s);
    assert(text::nonempty(one) == text::nonempty(none).push(s));
    assert(none.push(s) =~= one);
}

/// An absolute path whose spaces are escaped is found as it is, if nothing at its end is trimmed.
pub proof fn law_escaped_path_is_found(p: Seq<char>)
    requires
        p.len() > 1,
        p[0] == '/',
        trim_suffix(p) == p,
        forall|i: int| 0 <= i < p.len() && CharClass::Break.has(#[trigger] p[i]) ==> p[i] == ' ',
    ensures
        absolutes(escaped(p)) == seq![p],
{
    law_escaped_text_is_one_token(p);
    let one = seq![p];
    let none = one.drop_last();
    assert(none.len() == 0);
    assert(picks(Kind::Absolute, none) =~= none);
    assert(one.last() == p);
    assert(none.push(p) =~= one);
}

proof fn lemma_lex_join(a: Seq<char>, c: char, b: Seq<char>)
    requires
        CharClass::Break.has(c),
        c == ' ' && a.len() > 0 ==> a.last() != '\\',
    ensures
        lex(a.push(c) + b) == lex(a).push(None) + lex(b),
    decreases a.len(),
{
    let whole = a.push(c) + b;
    if a.len() == 0 {
        assert(whole[0] == c);
        assert(whole.skip(1) =~= b);
        assert(lex(whole) =~= lex(a).push(None) + lex(b));
    } else {
        assert(whole[0] == a[0]);
        if a.len() > 1 {
            assert(whole[1] == a[1]);
        } else {
            assert(whole[1] == c);
            assert(a.last() == a[0]);
        }
        if a[0] == '\\' && a.len() > 1 && a[1] == ' ' {
            let t = a.skip(2);
            assert(whole.skip(2) =~= t.push(c) + b);
            if t.len() > 0 {
                assert(t.last() == a.last());
            }
            lemma_lex_join(t, c, b);
        } else {
            let t = a.skip(1);
            assert(whole.skip(1) =~= t.push(c) + b);
            if t.len() > 0 {
                assert(t.last() == a.last());
            }
            lemma_lex_join(t, c, b);
        }
        assert(lex(whole) =~= lex(a).push(None) + lex(b));
    }
}

/// The tokens on both sides of a separator are found independently, unless a backslash escapes it.
pub proof fn law_separator_divides_tokens(a: Seq<char>, c: char, b: Seq<char>)
    requires
        CharClass::Break.has(c),
        c == ' ' && a.len() > 0 ==> a.last() != '\\',
    ensures
        tokens(a.push(c) + b) == tokens(a) + tokens(b),
{
    lemma_lex_join(a, c, b);
    text::lemma_pieces_join(lex(a), lex(b));
    text::lemma_nonempty_add(text::pieces(lex(a)), text::pieces(lex(b)));
}

/// Trimming a path takes off no more than marks, stops and digits at its end.
pub proof fn law_trim_takes_the_end(s: Seq<char>)
    ensures
        trim_suffix(s).is_prefix_of(s),
        forall|i: int|
            trim_suffix(s).len() <= i < s.len() ==> CharClass::ListMark.has(#[trigger] s[i])
                || CharClass::StopMark.has(s[i]) || CharClass::Digit.has(s[i]),
{
    let a = text::trim_end(s, CharClass::ListMark);
    let b = text::trim_end(a, CharClass::StopMark);
    let c = text::trim_end(b, CharClass::Digit);
    text::lemma_trailing_run(s, CharClass::ListMark);
    text::lemma_trailing_run(a, CharClass::StopMark);
    text::lemma_trailing_run(b, CharClass::Digit);
    assert forall|i: int| trim_suffix(s).len() <= i < s.len() implies CharClass::ListMark.has(
        #[trigger] s[i],
    ) || CharClass::StopMark.has(s[i]) || CharClass::Digit.has(s[i]) by {
        if i < a.len() {
            assert(a[i] == s[i]);
            if i < b.len() {
                assert(b[i] == s[i]);
                if i < c.len() {
                    assert(c[i] == s[i]);
                }
            }
        }
    }
}

/// A line number behind a path is taken off, and no more.
pub proof fn law_trim_drops_line_number(s: Seq<char>, ds: Seq<char>)
    requires
        ds.len() > 0,
        forall|i: int| 0 <= i < ds.len() ==> CharClass::Digit.has(#[trigger] ds[i]),
    ensures
        trim_suffix(s.push(':') + ds) == s,
{
    let whole = s.push(':') + ds;
    assert(whole.last() == ds[ds.len() - 1]);
    text::lemma_trailing(whole, CharClass::ListMark, 0);
    assert(text::trim_end(whole, CharClass::ListMark) =~= whole);
    text::lemma_trailing(whole, CharClass::StopMark, 0);
    assert(text::trim_end(whole, CharClass::StopMark) =~= whole);
    assert forall|i: int| whole.len() - ds.len() <= i < whole.len() implies CharClass::Digit.has(
        #[trigger] whole[i],
    ) by {
        assert(whole[i] == ds[i - s.len() - 1]);
    }
    text::lemma_trailing(whole, CharClass::Digit, ds.len() as int);
    assert(text::trim_end(whole, CharClass::Digit) =~= s.push(':'));
    assert(s.push(':').drop_last() =~= s);
}

/// A `,` or `;` behind a path makes no difference.
pub proof fn law_trim_drops_list_mark(s: Seq<char>, c: char)
    requires
        CharClass::ListMark.has(c),
    ensures
        trim_suffix(s.push(c)) == trim_suffix(s),
{
    assert(s.push(c).drop_last() =~= s);
    text::lemma_trailing_run(s, CharClass::ListMark);
    assert(text::trim_end(s.push(c), CharClass::ListMark) =~= text::trim_end(
        s,
        CharClass::ListMark,
    ));
}

/// What [`picks`] lists are the candidates of tokens.
proof fn lemma_picks(kind: Kind, ts: Seq<Seq<char>>, k: int)
    requires
        0 <= k < picks(kind, ts).len(),
    ensures
        exists|j: int|
            0 <= j < ts.len() && pick(kind, #[trigger] ts[j]) == Some(picks(kind, ts)[k]),
    decreases ts.len(),
{
    let d = ts.drop_last();
    if pick(kind, ts.last()) is Some && k == picks(kind, d).len() {
        assert(pick(kind, ts[ts.len() - 1]) == Some(picks(kind, ts)[k]));
    } else {
        lemma_picks(kind, d, k);
        let j = choose|j: int|
            0 <= j < d.len() && pick(kind, #[trigger] d[j]) == Some(picks(kind, d)[k]);
        assert(pick(kind, ts[j]) == Some(picks(kind, ts)[k]));
    }
}

/// [`first_opening`] finds an opening.
proof fn lemma_first_opening(t: Seq<char>, i: int)
    requires
        0 <= i,
    ensures
        first_opening(t, i) matches Some(j) ==> i <= j && opens_path(t, j),
    decreases t.len() - i,
{
    if i + 1 < t.len() && !opens_path(t, i) {
        lemma_first_opening(t, i + 1);
    }
}

/// The absolute paths found in a line start with `/`, and are more than that.
pub proof fn law_absolutes_are_absolute(line: Seq<char>, k: int)
    requires
        0 <= k < absolutes(line).len(),
    ensures
        absolutes(line)[k].len() > 1,
        absolutes(line)[k][0] == '/',
{
    lemma_picks(Kind::Absolute, tokens(line), k);
    let ts = tokens(line);
    let j = choose|j: int|
        0 <= j < ts.len() && pick(Kind::Absolute, #[trigger] ts[j]) == Some(absolutes(line)[k]);
    let t = ts[j];
    lemma_first_opening(t, 0);
    law_trim_takes_the_end(t);
    match first_opening(t, 0) {
        Some(i) => {
            law_trim_takes_the_end(t.skip(i + 1));
        },
        None => {},
    }
}

/// The relative paths found in a line contain a `/`, but not in front.
pub proof fn law_relatives_are_relative(line: Seq<char>, k: int)
    requires
        0 <= k < relatives(line).len(),
    ensures
        relatives(line)[k].contains('/'),
        relatives(line)[k][0] != '/',
{
    lemma_picks(Kind::Relative, tokens(line), k);
    let ts = tokens(line);
    let r = relatives(line)[k];
    let j = choose|j: int| 0 <= j < ts.len() && pick(Kind::Relative, #[trigger] ts[j]) == Some(r);
    let t = ts[j];
    law_trim_takes_the_end(t);
    let i = choose|i: int| 0 <= i < t.len() && t[i] == '/';
    assert(i < r.len());
    assert(r[i] == t[i]);
    assert(r[0] == t[0]);
}

/// The bare file names found in a line are not empty, have no `/`, and do not begin a link.
pub proof fn law_dotwords_are_names(line: Seq<char>, k: int)
    requires
        0 <= k < dotwords(line).len(),
    ensures
        dotwords(line)[k].len() > 0,
        !dotwords(line)[k].contains('/'),
        !text::begins(dotwords(line)[k], http()),
{
    lemma_picks(Kind::Dotword, tokens(line), k);
    let ts = tokens(line);
    let r = dotwords(line)[k];
    let j = choose|j: int| 0 <= j < ts.len() && pick(Kind::Dotword, #[trigger] ts[j]) == Some(r);
    let t = ts[j];
    law_trim_takes_the_end(t);
    if r.contains('/') {
        let i = choose|i: int| 0 <= i < r.len() && r[i] == '/';
        assert(t[i] == '/');
    }
    if text::begins(r, http()) {
        assert(t.subrange(0, 4) =~= r.subrange(0, 4));
    }
}

/// Joined words begin with the first of them.
proof fn lemma_joined_front(ws: Seq<Seq<char>>, i: int, j: int)
    requires
        ws[i].len() > 0,
    ensures
        joined(ws, i, j).len() > 0,
        joined(ws, i, j)[0] == ws[i][0],
    decreases j - i,
{
    if j > i {
        lemma_joined_front(ws, i, j - 1);
    }
}

proof fn lemma_greedy_from(ws: Seq<Seq<char>>, i: int, disk: fs::Disk, k: int)
    requires
        0 <= i,
        0 <= k < greedy_from(ws, i, disk).len(),
    ensures
        greedy_from(ws, i, disk)[k].len() > 1,
        greedy_from(ws, i, disk)[k][0] == '/',
        disk.paths.contains(greedy_from(ws, i, disk)[k]),
    decreases ws.len() - i,
{
    if i < ws.len() {
        lemma_first_hit(ws, i, i, disk);
        match path_end(ws, i, disk) {
            Some(e) => {
                let s = joined(ws, i, e - 1);
                let rest = greedy_from(ws, e, disk);
                lemma_joined_front(ws, i, e - 1);
                law_trim_takes_the_end(s);
                assert(trim_suffix(s)[0] == s[0]);
                if k > 0 {
                    lemma_greedy_from(ws, e, disk, k - 1);
                    assert(greedy_from(ws, i, disk)[k] == rest[k - 1]);
                }
            },
            None => {
                lemma_greedy_from(ws, i + 1, disk, k);
            },
        }
    }
}

/// The paths found by joining words exist, start with `/`, and are more than that.
pub proof fn law_greedy_finds_exist(line: Seq<char>, disk: fs::Disk, k: int)
    requires
        0 <= k < greedy(line, disk).len(),
    ensures
        greedy(line, disk)[k].len() > 1,
        greedy(line, disk)[k][0] == '/',
        disk.paths.contains(greedy(line, disk)[k]),
{
    lemma_greedy_from(text::words(line, CharClass::AsciiWhite), 0, disk, k);
}

/// Whether a text is a word of a listing.
pub open spec fn is_word(w: Seq<char>) -> bool {
    w.len() > 0 && forall|i: int| 0 <= i < w.len() ==> !CharClass::AsciiWhite.has(#[trigger] w[i])
}

/// Joined words are read as those words.
proof fn lemma_joined_words(ws: Seq<Seq<char>>, j: int)
    requires
        0 <= j < ws.len(),
        forall|i: int| 0 <= i < ws.len() ==> is_word(#[trigger] ws[i]),
    ensures
        text::words(joined(ws, 0, j), CharClass::AsciiWhite) == ws.take(j + 1),
    decreases j,
{
    let class = CharClass::AsciiWhite;
    let w = ws[j];
    let one = seq![w];
    let none = one.drop_last();
    text::lemma_split_whole(w, class);
    assert(none.len() == 0);
    assert(text::nonempty(none) =~= none);
    assert(one.last() == w);
    assert(none.push(w) =~= one);
    assert(text::nonempty(one) =~= one);
    if j == 0 {
        assert(ws.take(1) =~= one);
    } else {
        lemma_joined_words(ws, j - 1);
        text::lemma_split_join(joined(ws, 0, j - 1), ' ', w, class);
        text::lemma_nonempty_add(text::split(joined(ws, 0, j - 1), class), one);
        assert(ws.take(j) + one =~= ws.take(j + 1));
    }
}

/// [`first_hit`] finds the first hit.
proof fn lemma_first_hit_at(ws: Seq<Seq<char>>, i: int, j: int, k: int, disk: fs::Disk)
    requires
        i <= j <= k < ws.len(),
        k < i + JOINED_WORDS,
        hits(joined(ws, i, k), disk),
        forall|m: int| j <= m < k ==> !hits(#[trigger] joined(ws, i, m), disk),
    ensures
        first_hit(ws, i, j, disk) == Some(k),
    decreases k - j,
{
    if j < k {
        lemma_first_hit_at(ws, i, j + 1, k, disk);
    }
}

/// A path that exists is found though its spaces are not escaped, if nothing at its end is trimmed,
/// it has no more words than are joined, and no shorter run of its words is a path that exists.
pub proof fn law_greedy_joins_words(ws: Seq<Seq<char>>, disk: fs::Disk)
    requires
        0 < ws.len() <= JOINED_WORDS,
        forall|i: int| 0 <= i < ws.len() ==> is_word(#[trigger] ws[i]),
        ws[0].len() > 1,
        ws[0][0] == '/',
        trim_suffix(joined(ws, 0, ws.len() - 1)) == joined(ws, 0, ws.len() - 1),
        disk.paths.contains(joined(ws, 0, ws.len() - 1)),
        forall|m: int| 0 <= m < ws.len() - 1 ==> !hits(#[trigger] joined(ws, 0, m), disk),
    ensures
        greedy(joined(ws, 0, ws.len() - 1), disk) == seq![joined(ws, 0, ws.len() - 1)],
{
    let k = ws.len() - 1;
    let p = joined(ws, 0, k);
    lemma_joined_words(ws, k);
    assert(ws.take(k + 1) =~= ws);
    lemma_joined_long(ws, k);
    lemma_first_hit_at(ws, 0, 0, k, disk);
    assert(path_end(ws, 0, disk) == Some(k + 1));
    assert(greedy_from(ws, k + 1, disk) =~= Seq::<Seq<char>>::empty());
    assert(greedy_from(ws, 0, disk) =~= seq![p]);
}

/// Joined words are no shorter than the first of them.
proof fn lemma_joined_long(ws: Seq<Seq<char>>, j: int)
    requires
        0 <= j < ws.len(),
    ensures
        joined(ws, 0, j).len() >= ws[0].len(),
    decreases j,
{
    if j > 0 {
        lemma_joined_long(ws, j - 1);
    }
}

// ---------------------------------------------------------------------------------------------
// What the operations give
// ---------------------------------------------------------------------------------------------

/// Tokens are divided by white space, quotes, parentheses and brackets, and by nothing else; an
/// escaped space divides none.
pub proof fn law_tokens_are_divided_by(a: Seq<char>, c: char, b: Seq<char>)
    ensures
        tokens(Seq::<char>::empty()) == Seq::<Seq<char>>::empty(),
        (text::white_space(c) || seq!['"', '\'', '(', ')', '[', ']', '<', '>'].contains(c)) && !(c
            == ' ' && a.len() > 0 && a.last() == '\\') ==> tokens(a.push(c) + b) == tokens(a)
            + tokens(b),
        a.len() > 0 && (forall|i: int|
            0 <= i < a.len() && (text::white_space(#[trigger] a[i]) || seq![
                '"',
                '\'',
                '(',
                ')',
                '[',
                ']',
                '<',
                '>',
            ].contains(a[i])) ==> a[i] == ' ') ==> tokens(escaped(a)) == seq![a],
{
    let none = Seq::<char>::empty();
    let empty = seq![none];
    assert(lex(none) =~= Seq::<Option<char>>::empty());
    assert(text::pieces(lex(none)) =~= empty);
    assert(empty.drop_last() =~= Seq::<Seq<char>>::empty());
    assert(empty.last().len() == 0);
    assert(text::nonempty(empty.drop_last()) =~= Seq::<Seq<char>>::empty());
    text::law_characters_of_classes(c);
    if CharClass::Break.has(c) && !(c == ' ' && a.len() > 0 && a.last() == '\\') {
        law_separator_divides_tokens(a, c, b);
    }
    let marks = seq!['"', '\'', '(', ')', '[', ']', '<', '>'];
    if a.len() > 0 && (forall|i: int|
        0 <= i < a.len() && (text::white_space(#[trigger] a[i]) || marks.contains(a[i])) ==> a[i]
            == ' ') {
        assert forall|i: int| 0 <= i < a.len() && CharClass::Break.has(#[trigger] a[i]) implies a[i]
            == ' ' by {
            text::law_characters_of_classes(a[i]);
        }
        law_escaped_text_is_one_token(a);
    }
}

/// What trimming makes of a text with one character more: a `,` or `;` makes no difference, and a
/// `.` or `:` none either, unless it stands behind a `,` or `;`, where it alone is taken off.
pub proof fn law_trim_by_last_character(s: Seq<char>, c: char)
    ensures
        c == ',' || c == ';' ==> trim_suffix(s.push(c)) == trim_suffix(s),
        (c == '.' || c == ':') && !(s.len() > 0 && (s.last() == ',' || s.last() == ';'))
            ==> trim_suffix(s.push(c)) == trim_suffix(s),
        (c == '.' || c == ':') && s.len() > 0 && (s.last() == ',' || s.last() == ';')
            ==> trim_suffix(s.push(c)) == s,
{
    let list = CharClass::ListMark;
    let stop = CharClass::StopMark;
    let t = s.push(c);
    assert(t.drop_last() =~= s);
    if c == ',' || c == ';' {
        law_trim_drops_list_mark(s, c);
    } else if c == '.' || c == ':' {
        text::lemma_trailing(t, list, 0);
        assert(text::trim_end(t, list) =~= t);
        text::lemma_trailing_run(s, stop);
        assert(text::trim_end(t, stop) =~= text::trim_end(s, stop));
        if s.len() > 0 && list.has(s.last()) {
            assert(text::trailing(s, stop) == 0);
            assert(text::trim_end(s, stop) =~= s);
            assert(text::trailing(s, CharClass::Digit) == 0);
            assert(text::trim_end(s, CharClass::Digit) =~= s);
        } else {
            assert(text::trailing(s, list) == 0);
            assert(text::trim_end(s, list) =~= s);
        }
    }
}

/// Trimming leaves a text that ends in none of the marks, unless that is a line number behind a
/// colon, which is taken off with its colon.
pub proof fn law_trim_leaves_other_ends(s: Seq<char>, x: Seq<char>, ds: Seq<char>)
    ensures
        s.len() == 0 ==> trim_suffix(s) == s,
        ds.len() > 0 && (forall|i: int| 0 <= i < ds.len() ==> '0' <= #[trigger] ds[i] <= '9')
            ==> trim_suffix(x + seq![':'] + ds) == x,
        s.len() > 0 && !seq![',', ';', '.', ':'].contains(s.last()) && (forall|k: int|
            0 <= k < s.len() - 1 && #[trigger] s[k] == ':' ==> exists|m: int|
                k < m < s.len() && !('0' <= #[trigger] s[m] <= '9')) ==> trim_suffix(s) == s,
{
    let list = CharClass::ListMark;
    let stop = CharClass::StopMark;
    let digit = CharClass::Digit;
    if s.len() == 0 {
        assert(text::trim_end(s, list) =~= s);
        assert(text::trim_end(s, stop) =~= s);
        assert(text::trim_end(s, digit) =~= s);
    }
    if ds.len() > 0 && (forall|i: int| 0 <= i < ds.len() ==> '0' <= #[trigger] ds[i] <= '9') {
        law_trim_drops_line_number(x, ds);
        assert(x + seq![':'] + ds =~= x.push(':') + ds);
    }
    let marks = seq![',', ';', '.', ':'];
    assert(marks[0] == ',' && marks[1] == ';' && marks[2] == '.' && marks[3] == ':');
    if s.len() > 0 && !marks.contains(s.last()) && (forall|k: int|
        0 <= k < s.len() - 1 && #[trigger] s[k] == ':' ==> exists|m: int|
            k < m < s.len() && !('0' <= #[trigger] s[m] <= '9')) {
        assert(text::trailing(s, list) == 0);
        assert(text::trim_end(s, list) =~= s);
        assert(text::trailing(s, stop) == 0);
        assert(text::trim_end(s, stop) =~= s);
        text::lemma_trailing_run(s, digit);
        let d = text::trim_end(s, digit);
        if d.len() < s.len() && d.len() > 0 && d.last() == ':' {
            let k = d.len() - 1;
            assert(s[k] == ':');
            let m = choose|m: int| k < m < s.len() && !('0' <= #[trigger] s[m] <= '9');
            assert(digit.has(s[m]));
        }
    }
}

proof fn lemma_relatives_filter(ts: Seq<Seq<char>>)
    ensures
        picks(Kind::Relative, ts) == ts.filter(
            |t: Seq<char>| t.contains('/') && t[0] != '/',
        ).map_values(|t: Seq<char>| trim_suffix(t)).filter(|t: Seq<char>| t.len() > 0),
    decreases ts.len(),
{
    reveal(Seq::filter);
    let f = |t: Seq<char>| t.contains('/') && t[0] != '/';
    let g = |t: Seq<char>| trim_suffix(t);
    let h = |t: Seq<char>| t.len() > 0;
    if ts.len() > 0 {
        let d = ts.drop_last();
        lemma_relatives_filter(d);
        if f(ts.last()) {
            let m = ts.filter(f).map_values(g);
            assert(ts.filter(f) == d.filter(f).push(ts.last()));
            assert(m.drop_last() =~= d.filter(f).map_values(g));
            assert(m.last() == trim_suffix(ts.last()));
        }
    } else {
        assert(ts.filter(f).map_values(g) =~= ts);
    }
}

/// The relative paths in a line are its tokens with a `/`, but not in front, each trimmed, without
/// those of which nothing is left; in their order.
pub proof fn law_relatives_are_tokens_with_slash(line: Seq<char>)
    ensures
        relatives(line) == tokens(line).filter(
            |t: Seq<char>| t.contains('/') && t[0] != '/',
        ).map_values(|t: Seq<char>| trim_suffix(t)).filter(|t: Seq<char>| t.len() > 0),
        forall|k: int|
            0 <= k < tokens(line).len() && (#[trigger] tokens(line)[k]).contains('/') && tokens(
                line,
            )[k][0] != '/' && trim_suffix(tokens(line)[k]).len() > 0 ==> relatives(line).contains(
                trim_suffix(tokens(line)[k]),
            ),
{
    lemma_relatives_filter(tokens(line));
    assert forall|k: int|
        0 <= k < tokens(line).len() && (#[trigger] tokens(line)[k]).contains('/') && tokens(
            line,
        )[k][0] != '/' && trim_suffix(tokens(line)[k]).len() > 0 implies relatives(line).contains(
        trim_suffix(tokens(line)[k]),
    ) by {
        lemma_picks_all(Kind::Relative, tokens(line), k);
    }
}

proof fn lemma_dotwords_filter(ts: Seq<Seq<char>>)
    ensures
        picks(Kind::Dotword, ts) == ts.filter(
            |t: Seq<char>|
                !t.contains('/') && t.contains('.') && !(t.len() >= 4 && t[0] == 'h' && t[1] == 't'
                    && t[2] == 't' && t[3] == 'p'),
        ).map_values(|t: Seq<char>| trim_suffix(t)).filter(|t: Seq<char>| t.len() > 0),
    decreases ts.len(),
{
    reveal(Seq::filter);
    let f = |t: Seq<char>|
        !t.contains('/') && t.contains('.') && !(t.len() >= 4 && t[0] == 'h' && t[1] == 't' && t[2]
            == 't' && t[3] == 'p');
    let g = |t: Seq<char>| trim_suffix(t);
    let h = |t: Seq<char>| t.len() > 0;
    if ts.len() > 0 {
        let d = ts.drop_last();
        let t = ts.last();
        lemma_dotwords_filter(d);
        lemma_begins_http(t);
        if f(t) {
            let m = ts.filter(f).map_values(g);
            assert(ts.filter(f) == d.filter(f).push(t));
            assert(m.drop_last() =~= d.filter(f).map_values(g));
            assert(m.last() == trim_suffix(t));
        }
    } else {
        assert(ts.filter(f).map_values(g) =~= ts);
    }
}

proof fn lemma_begins_http(t: Seq<char>)
    ensures
        text::begins(t, http()) <==> t.len() >= 4 && t[0] == 'h' && t[1] == 't' && t[2] == 't'
            && t[3] == 'p',
{
    if t.len() >= 4 {
        let sub = t.subrange(0, 4);
        assert(sub[0] == t[0] && sub[1] == t[1] && sub[2] == t[2] && sub[3] == t[3]);
        assert(http()[0] == 'h' && http()[1] == 't' && http()[2] == 't' && http()[3] == 'p');
        if t[0] == 'h' && t[1] == 't' && t[2] == 't' && t[3] == 'p' {
            assert(sub =~= http());
        }
    }
}

/// The bare file names in a line are its tokens with a `.` and without a `/` that do not begin with
/// `http`, each trimmed, without those of which nothing is left; in their order.
pub proof fn law_dotwords_are_tokens_with_dot(line: Seq<char>)
    ensures
        dotwords(line) == tokens(line).filter(
            |t: Seq<char>|
                !t.contains('/') && t.contains('.') && !(t.len() >= 4 && t[0] == 'h' && t[1] == 't'
                    && t[2] == 't' && t[3] == 'p'),
        ).map_values(|t: Seq<char>| trim_suffix(t)).filter(|t: Seq<char>| t.len() > 0),
        forall|k: int|
            0 <= k < tokens(line).len() && !(#[trigger] tokens(line)[k]).contains('/') && tokens(
                line,
            )[k].contains('.') && !seq!['h', 't', 't', 'p'].is_prefix_of(tokens(line)[k])
                && trim_suffix(tokens(line)[k]).len() > 0 ==> dotwords(line).contains(
                trim_suffix(tokens(line)[k]),
            ),
{
    lemma_dotwords_filter(tokens(line));
    let http = seq!['h', 't', 't', 'p'];
    assert forall|k: int|
        0 <= k < tokens(line).len() && !(#[trigger] tokens(line)[k]).contains('/') && tokens(
            line,
        )[k].contains('.') && !http.is_prefix_of(tokens(line)[k]) && trim_suffix(
            tokens(line)[k],
        ).len() > 0 implies dotwords(line).contains(trim_suffix(tokens(line)[k])) by {
        let t = tokens(line)[k];
        lemma_begins_http(t);
        if t.len() >= 4 && t[0] == 'h' && t[1] == 't' && t[2] == 't' && t[3] == 'p' {
            assert(http =~= t.subrange(0, 4));
        }
        lemma_picks_all(Kind::Dotword, tokens(line), k);
    }
}

/// [`picks`] lists the candidate of every token that has one.
proof fn lemma_picks_all(kind: Kind, ts: Seq<Seq<char>>, k: int)
    requires
        0 <= k < ts.len(),
        pick(kind, ts[k]) is Some,
    ensures
        picks(kind, ts).contains(pick(kind, ts[k])->0),
    decreases ts.len(),
{
    let d = ts.drop_last();
    let c = pick(kind, ts[k])->0;
    if k < d.len() {
        lemma_picks_all(kind, d, k);
        let j = choose|j: int| 0 <= j < picks(kind, d).len() && picks(kind, d)[j] == c;
        assert(picks(kind, ts)[j] == c);
    } else {
        assert(picks(kind, ts)[picks(kind, d).len() as int] == c);
    }
}

proof fn lemma_picks_add(kind: Kind, a: Seq<Seq<char>>, b: Seq<Seq<char>>)
    ensures
        picks(kind, a + b) == picks(kind, a) + picks(kind, b),
    decreases b.len(),
{
    if b.len() == 0 {
        assert(a + b =~= a);
        assert(picks(kind, a + b) =~= picks(kind, a) + picks(kind, b));
    } else {
        assert((a + b).drop_last() =~= a + b.drop_last());
        lemma_picks_add(kind, a, b.drop_last());
        assert(picks(kind, a + b) =~= picks(kind, a) + picks(kind, b));
    }
}

/// The absolute paths in a line are those of its tokens, one after the other.
pub proof fn law_absolutes_token_by_token(a: Seq<char>, b: Seq<char>, line: Seq<char>)
    ensures
        tokens(line) == tokens(a) + tokens(b) ==> absolutes(line) == absolutes(a) + absolutes(b),
        tokens(line).len() == 0 ==> absolutes(line).len() == 0,
{
    lemma_picks_add(Kind::Absolute, tokens(a), tokens(b));
}

/// The absolute path in a token: the token itself where it starts with `/`; else what follows its
/// first `:` or `=` that has a `/` behind it; trimmed, and more than the `/` alone.
pub proof fn law_absolute_of_token(line: Seq<char>, t: Seq<char>, i: int)
    requires
        tokens(line) == seq![t],
    ensures
        t.len() > 1 && t[0] == '/' ==> absolutes(line) == (if trim_suffix(t).len() > 1 {
            seq![trim_suffix(t)]
        } else {
            Seq::<Seq<char>>::empty()
        }),
        !(t.len() > 1 && t[0] == '/') && 0 <= i < t.len() - 1 && (t[i] == ':' || t[i] == '=') && t[i
            + 1] == '/' && (forall|k: int|
            0 <= k < i && (#[trigger] t[k] == ':' || t[k] == '=') ==> t[k + 1] != '/')
            ==> absolutes(line) == (if trim_suffix(t.skip(i + 1)).len() > 1 {
            seq![trim_suffix(t.skip(i + 1))]
        } else {
            Seq::<Seq<char>>::empty()
        }),
        !(t.len() > 1 && t[0] == '/') && (forall|k: int|
            0 <= k < t.len() - 1 && (#[trigger] t[k] == ':' || t[k] == '=') ==> t[k + 1] != '/')
            ==> absolutes(line).len() == 0,
{
    let one = seq![t];
    let none = one.drop_last();
    assert(none =~= Seq::<Seq<char>>::empty());
    assert(one.last() == t);
    assert(picks(Kind::Absolute, none) =~= none);
    if !(t.len() > 1 && t[0] == '/') {
        if 0 <= i < t.len() - 1 && (t[i] == ':' || t[i] == '=') && t[i + 1] == '/' && (forall|k: int|
            0 <= k < i && (#[trigger] t[k] == ':' || t[k] == '=') ==> t[k + 1] != '/') {
            lemma_first_opening_at(t, 0, i);
            law_trim_takes_the_end(t.skip(i + 1));
        }
        if forall|k: int|
            0 <= k < t.len() - 1 && (#[trigger] t[k] == ':' || t[k] == '=') ==> t[k + 1] != '/' {
            lemma_first_opening(t, 0);
        }
    }
    assert(forall|c: Seq<char>| #[trigger] none.push(c) =~= seq![c]);
}

proof fn lemma_first_opening_at(t: Seq<char>, j: int, i: int)
    requires
        0 <= j <= i,
        opens_path(t, i),
        forall|k: int|
            0 <= k < i && (#[trigger] t[k] == ':' || t[k] == '=') ==> t[k + 1] != '/',
    ensures
        first_opening(t, j) == Some(i),
    decreases i - j,
{
    if j < i {
        assert(!opens_path(t, j));
        lemma_first_opening_at(t, j + 1, i);
    }
}

/// Words joined have a space between them: splitting at the spaces gives the words back.
pub proof fn law_joined_words_have_spaces_between(ws: Seq<Seq<char>>, i: int, j: int)
    requires
        0 <= i <= j < ws.len(),
        forall|k: int, m: int|
            0 <= k < ws.len() && 0 <= m < ws[k].len() ==> #[trigger] ws[k][m] != ' ',
    ensures
        text::split(joined(ws, i, j), CharClass::Space) == ws.subrange(i, j + 1),
    decreases j - i,
{
    let space = CharClass::Space;
    text::lemma_split_whole(ws[j], space);
    if i < j {
        law_joined_words_have_spaces_between(ws, i, j - 1);
        text::lemma_split_join(joined(ws, i, j - 1), ' ', ws[j], space);
        assert(ws.subrange(i, j) + seq![ws[j]] =~= ws.subrange(i, j + 1));
    } else {
        assert(ws.subrange(i, j + 1) =~= seq![ws[j]]);
    }
}

proof fn lemma_joined_shift(ws: Seq<Seq<char>>, n: int, i: int, j: int)
    requires
        0 <= n,
        0 <= i <= j,
        j + n < ws.len(),
    ensures
        joined(ws, i + n, j + n) == joined(ws.skip(n), i, j),
    decreases j - i,
{
    assert(ws.skip(n)[j] == ws[j + n]);
    if i < j {
        lemma_joined_shift(ws, n, i, j - 1);
    }
}

proof fn lemma_first_hit_shift(ws: Seq<Seq<char>>, n: int, i: int, j: int, disk: fs::Disk)
    requires
        0 <= n <= ws.len(),
        0 <= i <= j,
    ensures
        first_hit(ws, i + n, j + n, disk) == match first_hit(ws.skip(n), i, j, disk) {
            Some(k) => Some(k + n),
            None => None,
        },
    decreases ws.len() - n - j,
{
    if j + n < ws.len() && j < i + JOINED_WORDS {
        lemma_joined_shift(ws, n, i, j);
        lemma_first_hit_shift(ws, n, i, j + 1, disk);
    }
}

proof fn lemma_greedy_shift(ws: Seq<Seq<char>>, n: int, i: int, disk: fs::Disk)
    requires
        0 <= n <= ws.len(),
        0 <= i,
    ensures
        greedy_from(ws, i + n, disk) == greedy_from(ws.skip(n), i, disk),
    decreases ws.len() - n - i,
{
    if i + n < ws.len() {
        let vs = ws.skip(n);
        assert(vs[i] == ws[i + n]);
        lemma_first_hit(ws, i + n, i + n, disk);
        lemma_first_hit(vs, i, i, disk);
        lemma_first_hit_shift(ws, n, i, i, disk);
        lemma_greedy_shift(ws, n, i + 1, disk);
        match path_end(vs, i, disk) {
            Some(k) => {
                lemma_joined_shift(ws, n, i, k - 1);
                lemma_greedy_shift(ws, n, k, disk);
            },
            None => {},
        }
    }
}

/// Whether the words from `i` to `j`, joined and trimmed, are a path that exists.
pub open spec fn names_path(ws: Seq<Seq<char>>, i: int, j: int, disk: fs::Disk) -> bool {
    trim_suffix(joined(ws, i, j)).len() > 1 && disk.paths.contains(trim_suffix(joined(ws, i, j)))
}

/// How the search by joined words goes on from word to word: past a word that begins no path that
/// exists, and past all words of one that does, which is listed. No more than twenty words are
/// joined.
pub proof fn law_greedy_goes_on(line: Seq<char>, rest: Seq<char>, j: int, disk: fs::Disk)
    ensures
        ({
            let ws = text::words(line, CharClass::AsciiWhite);
            let vs = text::words(rest, CharClass::AsciiWhite);
            let begins = ws.len() > 0 && ws[0].len() > 1 && ws[0][0] == '/';
            &&& ws.len() == 0 ==> greedy(line, disk).len() == 0
            &&& ws.len() > 0 && vs == ws.skip(1) && (!begins || (forall|m: int|
                0 <= m < ws.len() && m < 20 ==> !#[trigger] names_path(ws, 0, m, disk))) ==> greedy(
                line,
                disk,
            ) == greedy(rest, disk)
            &&& begins && 0 <= j < ws.len() && j < 20 && names_path(ws, 0, j, disk) && (
            forall|m: int| 0 <= m < j ==> !#[trigger] names_path(ws, 0, m, disk)) && vs == ws.skip(
                j + 1,
            ) ==> greedy(line, disk) == seq![trim_suffix(joined(ws, 0, j))] + greedy(rest, disk)
        }),
{
    let ws = text::words(line, CharClass::AsciiWhite);
    let vs = text::words(rest, CharClass::AsciiWhite);
    if ws.len() > 0 {
        lemma_first_hit(ws, 0, 0, disk);
        lemma_greedy_shift(ws, 1, 0, disk);
        match first_hit(ws, 0, 0, disk) {
            Some(k) => {
                assert(names_path(ws, 0, k, disk));
            },
            None => {},
        }
        if 0 <= j < ws.len() {
            lemma_greedy_shift(ws, j + 1, 0, disk);
            if j < 20 && names_path(ws, 0, j, disk) && (forall|m: int|
                0 <= m < j ==> !#[trigger] names_path(ws, 0, m, disk)) {
                assert forall|m: int| 0 <= m < j implies !hits(#[trigger] joined(ws, 0, m), disk) by {
                    assert(!names_path(ws, 0, m, disk));
                }
                lemma_first_hit_at(ws, 0, 0, j, disk);
            }
        }
    }
}

proof fn lemma_greedy_reaches(ws: Seq<Seq<char>>, k: int, i: int, j: int, disk: fs::Disk)
    requires
        0 <= k <= i <= j < ws.len(),
        j < i + JOINED_WORDS,
        ws[i].len() > 1,
        ws[i][0] == '/',
        names_path(ws, i, j, disk),
        forall|m: int| i <= m < j ==> !#[trigger] names_path(ws, i, m, disk),
        forall|a: int, b: int|
            0 <= a < i && a <= b < ws.len() && b < a + JOINED_WORDS && ws[a].len() > 1 && ws[a][0]
                == '/' && #[trigger] names_path(ws, a, b, disk) && (forall|m: int|
                a <= m < b ==> !names_path(ws, a, m, disk)) ==> b < i,
    ensures
        greedy_from(ws, k, disk).contains(trim_suffix(joined(ws, i, j))),
    decreases i - k,
{
    let p = trim_suffix(joined(ws, i, j));
    lemma_first_hit(ws, k, k, disk);
    if k == i {
        assert forall|m: int| i <= m < j implies !hits(#[trigger] joined(ws, i, m), disk) by {
            assert(!names_path(ws, i, m, disk));
        }
        lemma_first_hit_at(ws, i, i, j, disk);
        assert(greedy_from(ws, i, disk)[0] == p);
    } else {
        match path_end(ws, k, disk) {
            Some(e) => {
                assert(names_path(ws, k, e - 1, disk));
                assert forall|m: int| k <= m < e - 1 implies !names_path(ws, k, m, disk) by {
                    lemma_first_hit_first(ws, k, k, m, disk);
                }
                assert(e - 1 < i);
                lemma_greedy_reaches(ws, e, i, j, disk);
                let rest = greedy_from(ws, e, disk);
                let x = choose|x: int| 0 <= x < rest.len() && rest[x] == p;
                assert(greedy_from(ws, k, disk)[x + 1] == p);
            },
            None => {
                lemma_greedy_reaches(ws, k + 1, i, j, disk);
            },
        }
    }
}

proof fn lemma_first_hit_first(ws: Seq<Seq<char>>, i: int, j: int, m: int, disk: fs::Disk)
    requires
        first_hit(ws, i, j, disk) matches Some(k) && j <= m < k,
    ensures
        !hits(joined(ws, i, m), disk),
    decreases m - j,
{
    if j < m {
        lemma_first_hit_first(ws, i, j + 1, m, disk);
    }
}

/// A path that exists is found wherever it begins: whatever words stand before it, unless one of
/// them begins a path that exists and reaches to it.
pub proof fn law_greedy_finds_anywhere(line: Seq<char>, i: int, j: int, disk: fs::Disk)
    requires
        ({
            let ws = text::words(line, CharClass::AsciiWhite);
            &&& 0 <= i <= j < ws.len()
            &&& j < i + 20
            &&& ws[i].len() > 1
            &&& ws[i][0] == '/'
            &&& names_path(ws, i, j, disk)
            &&& forall|m: int| i <= m < j ==> !#[trigger] names_path(ws, i, m, disk)
            &&& forall|a: int, b: int|
                0 <= a < i && a <= b < ws.len() && b < a + 20 && ws[a].len() > 1 && ws[a][0] == '/'
                    && #[trigger] names_path(ws, a, b, disk) && (forall|m: int|
                    a <= m < b ==> !names_path(ws, a, m, disk)) ==> b < i
        }),
    ensures
        greedy(line, disk).contains(
            trim_suffix(joined(text::words(line, CharClass::AsciiWhite), i, j)),
        ),
{
    lemma_greedy_reaches(text::words(line, CharClass::AsciiWhite), 0, i, j, disk);
}

} // verus!
