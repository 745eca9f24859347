//! Sequences of characters: classes of characters, trimming, splitting, searching.
//!
//! A string is modelled by the sequence of its characters. Positions are counted in characters;
//! where the number of bytes matters, [`byte_len`] gives it.

use vstd::prelude::*;

verus! {

/// `String::push` of the standard library. Stated: the character is appended to the string.
pub assume_specification[ String::push ](s: &mut String, c: char)
    ensures
        final(s)@ == old(s)@.push(c),
;

/// The characters with the Unicode property `White_Space`.
pub open spec fn white_space(c: char) -> bool {
    ||| '\u{9}' <= c && c <= '\u{d}'
    ||| c == '\u{20}'
    ||| c == '\u{85}'
    ||| c == '\u{a0}'
    ||| c == '\u{1680}'
    ||| '\u{2000}' <= c && c <= '\u{200a}'
    ||| c == '\u{2028}'
    ||| c == '\u{2029}'
    ||| c == '\u{202f}'
    ||| c == '\u{205f}'
    ||| c == '\u{3000}'
}

/// Tests for the Unicode property `White_Space`.
pub fn is_white_space(c: char) -> (r: bool)
    ensures
        r == white_space(c),
{
    ('\u{9}' <= c && c <= '\u{d}') || c == '\u{20}' || c == '\u{85}' || c == '\u{a0}' || c
        == '\u{1680}' || ('\u{2000}' <= c && c <= '\u{200a}') || c == '\u{2028}' || c == '\u{2029}'
        || c == '\u{202f}' || c == '\u{205f}' || c == '\u{3000}'
}

/// The sets of characters by which text is trimmed and split.
#[derive(Clone, Copy)]
pub enum CharClass {
    /// Unicode white space.
    White,
    /// White space within ASCII, without the vertical tab.
    AsciiWhite,
    /// What separates the tokens of a line: white space, quotes, brackets.
    Break,
    /// The space alone.
    Space,
    /// `/`
    Slash,
    /// `=`
    Equals,
    /// The line feed.
    Newline,
    /// The horizontal tab.
    Tab,
    /// `,` and `;`
    ListMark,
    /// `.` and `:`
    StopMark,
    /// The ASCII digits.
    Digit,
    /// What ends the target of a `cd`: white space, `|` and `;`
    CommandStop,
    /// The space and `/`
    NameStop,
    /// `"`
    DoubleQuote,
    /// `'`
    SingleQuote,
    /// `}`
    CloseBrace,
    /// The arrow that opens a prompt line, U+279C.
    Arrow,
    /// `%`
    Percent,
}

impl CharClass {
    /// Membership of a character.
    pub open spec fn has(self, c: char) -> bool {
        match self {
            CharClass::White => white_space(c),
            CharClass::AsciiWhite => c == ' ' || c == '\t' || c == '\n' || c == '\u{c}' || c
                == '\r',
            CharClass::Break => white_space(c) || c == '"' || c == '\'' || c == '(' || c == ')' || c
                == '[' || c == ']' || c == '<' || c == '>',
            CharClass::Space => c == ' ',
            CharClass::Slash => c == '/',
            CharClass::Equals => c == '=',
            CharClass::Newline => c == '\n',
            CharClass::Tab => c == '\t',
            CharClass::ListMark => c == ',' || c == ';',
            CharClass::StopMark => c == '.' || c == ':',
            CharClass::Digit => '0' <= c && c <= '9',
            CharClass::CommandStop => white_space(c) || c == '|' || c == ';',
            CharClass::NameStop => c == ' ' || c == '/',
            CharClass::DoubleQuote => c == '"',
            CharClass::SingleQuote => c == '\'',
            CharClass::CloseBrace => c == '}',
            CharClass::Arrow => c == '\u{279c}',
            CharClass::Percent => c == '%',
        }
    }

    /// Tests a character for membership.
    pub fn test(self, c: char) -> (r: bool)
        ensures
            r == self.has(c),
    {
        match self {
            CharClass::White => is_white_space(c),
            CharClass::AsciiWhite => c == ' ' || c == '\t' || c == '\n' || c == '\u{c}' || c
                == '\r',
            CharClass::Break => is_white_space(c) || c == '"' || c == '\'' || c == '(' || c == ')'
                || c == '[' || c == ']' || c == '<' || c == '>',
            CharClass::Space => c == ' ',
            CharClass::Slash => c == '/',
            CharClass::Equals => c == '=',
            CharClass::Newline => c == '\n',
            CharClass::Tab => c == '\t',
            CharClass::ListMark => c == ',' || c == ';',
            CharClass::StopMark => c == '.' || c == ':',
            CharClass::Digit => '0' <= c && c <= '9',
            CharClass::CommandStop => is_white_space(c) || c == '|' || c == ';',
            CharClass::NameStop => c == ' ' || c == '/',
            CharClass::DoubleQuote => c == '"',
            CharClass::SingleQuote => c == '\'',
            CharClass::CloseBrace => c == '}',
            CharClass::Arrow => c == '\u{279c}',
            CharClass::Percent => c == '%',
        }
    }
}

// ---------------------------------------------------------------------------------------------
// Strings and their characters
// ---------------------------------------------------------------------------------------------

/// The number of bytes that a text takes in UTF-8.
pub open spec fn byte_len(s: Seq<char>) -> nat {
    vstd::utf8::encode_utf8(s).len()
}

/// The number of bytes of a string.
pub fn bytes_in(s: &str) -> (r: usize)
    ensures
        r == byte_len(s@),
{
    s.as_bytes().len()
}

/// The characters of a string.
pub fn chars_of(s: &str) -> (r: Vec<char>)
    ensures
        r@ == s@,
{
    let mut out: Vec<char> = Vec::new();
    for c in it: s.chars()
        invariant
            out@ == s@.take(it.index()),
            it.seq() == s@,
    {
        out.push(c);
    }
    out
}

/// The string of the characters from `lo` up to `hi`.
pub fn text_of(cs: &Vec<char>, lo: usize, hi: usize) -> (r: String)
    requires
        lo <= hi <= cs@.len(),
    ensures
        r@ == cs@.subrange(lo as int, hi as int),
{
    let mut out: String = String::new();
    let mut i: usize = lo;
    while i < hi
        invariant
            lo <= i <= hi <= cs@.len(),
            out@ == cs@.subrange(lo as int, i as int),
        decreases hi - i,
    {
        out.push(cs[i]);
        i = i + 1;
    }
    out
}

/// Whether two strings hold the same characters.
pub fn same(a: &str, b: &str) -> (r: bool)
    ensures
        r == (a@ == b@),
{
    let x: String = a.to_owned();
    let y: String = b.to_owned();
    x == y
}

// ---------------------------------------------------------------------------------------------
// Runs of a class at the ends of a text
// ---------------------------------------------------------------------------------------------

/// The length of the longest prefix made of characters of the class.
pub open spec fn leading(s: Seq<char>, class: CharClass) -> int
    decreases s.len(),
{
    if s.len() > 0 && class.has(s[0]) {
        1 + leading(s.skip(1), class)
    } else {
        0
    }
}

/// The length of the longest prefix free of characters of the class: the position of the first
/// character of the class, or the length of the text.
pub open spec fn until(s: Seq<char>, class: CharClass) -> int
    decreases s.len(),
{
    if s.len() > 0 && !class.has(s[0]) {
        1 + until(s.skip(1), class)
    } else {
        0
    }
}

/// The length of the longest suffix made of characters of the class.
pub open spec fn trailing(s: Seq<char>, class: CharClass) -> int
    decreases s.len(),
{
    if s.len() > 0 && class.has(s.last()) {
        1 + trailing(s.drop_last(), class)
    } else {
        0
    }
}

/// The text without its leading characters of the class.
pub open spec fn trim_start(s: Seq<char>, class: CharClass) -> Seq<char> {
    s.skip(leading(s, class))
}

/// The text without its trailing characters of the class.
pub open spec fn trim_end(s: Seq<char>, class: CharClass) -> Seq<char> {
    s.take(s.len() - trailing(s, class))
}

/// The text without its leading and trailing characters of the class.
pub open spec fn trim(s: Seq<char>, class: CharClass) -> Seq<char> {
    trim_end(trim_start(s, class), class)
}

/// [`leading`] is the one length that fits its description.
pub proof fn lemma_leading(s: Seq<char>, class: CharClass, n: int)
    requires
        0 <= n <= s.len(),
        forall|i: int| 0 <= i < n ==> class.has(s[i]),
        n < s.len() ==> !class.has(s[n]),
    ensures
        leading(s, class) == n,
    decreases n,
{
    if n > 0 {
        assert(s.skip(1).len() == s.len() - 1);
        assert forall|i: int| 0 <= i < n - 1 implies class.has(s.skip(1)[i]) by {
            assert(s.skip(1)[i] == s[i + 1]);
        }
        lemma_leading(s.skip(1), class, n - 1);
    }
}

/// [`leading`] fits its description.
pub proof fn lemma_leading_run(s: Seq<char>, class: CharClass)
    ensures
        0 <= leading(s, class) <= s.len(),
        forall|i: int| 0 <= i < leading(s, class) ==> class.has(#[trigger] s[i]),
        leading(s, class) < s.len() ==> !class.has(s[leading(s, class)]),
    decreases s.len(),
{
    if s.len() > 0 && class.has(s[0]) {
        let t = s.skip(1);
        lemma_leading_run(t, class);
        assert forall|i: int| 0 <= i < leading(s, class) implies class.has(#[trigger] s[i]) by {
            if i > 0 {
                assert(t[i - 1] == s[i]);
            }
        }
    }
}

/// [`until`] is the one length that fits its description.
pub proof fn lemma_until(s: Seq<char>, class: CharClass, n: int)
    requires
        0 <= n <= s.len(),
        forall|i: int| 0 <= i < n ==> !class.has(s[i]),
        n < s.len() ==> class.has(s[n]),
    ensures
        until(s, class) == n,
    decreases n,
{
    if n > 0 {
        assert(s.skip(1).len() == s.len() - 1);
        assert forall|i: int| 0 <= i < n - 1 implies !class.has(s.skip(1)[i]) by {
            assert(s.skip(1)[i] == s[i + 1]);
        }
        lemma_until(s.skip(1), class, n - 1);
    }
}

/// [`until`] fits its description.
pub proof fn lemma_until_run(s: Seq<char>, class: CharClass)
    ensures
        0 <= until(s, class) <= s.len(),
        forall|i: int| 0 <= i < until(s, class) ==> !class.has(#[trigger] s[i]),
        until(s, class) < s.len() ==> class.has(s[until(s, class)]),
    decreases s.len(),
{
    if s.len() > 0 && !class.has(s[0]) {
        let t = s.skip(1);
        lemma_until_run(t, class);
        assert forall|i: int| 0 <= i < until(s, class) implies !class.has(#[trigger] s[i]) by {
            if i > 0 {
                assert(t[i - 1] == s[i]);
            }
        }
    }
}

/// [`trailing`] is the one length that fits its description.
pub proof fn lemma_trailing(s: Seq<char>, class: CharClass, n: int)
    requires
        0 <= n <= s.len(),
        forall|i: int| s.len() - n <= i < s.len() ==> class.has(s[i]),
        n < s.len() ==> !class.has(s[s.len() - n - 1]),
    ensures
        trailing(s, class) == n,
    decreases n,
{
    if n > 0 {
        lemma_trailing(s.drop_last(), class, n - 1);
    }
}

/// [`trailing`] fits its description.
pub proof fn lemma_trailing_run(s: Seq<char>, class: CharClass)
    ensures
        0 <= trailing(s, class) <= s.len(),
        forall|i: int| s.len() - trailing(s, class) <= i < s.len() ==> class.has(#[trigger] s[i]),
        trailing(s, class) < s.len() ==> !class.has(s[s.len() - trailing(s, class) - 1]),
    decreases s.len(),
{
    if s.len() > 0 && class.has(s.last()) {
        let t = s.drop_last();
        lemma_trailing_run(t, class);
        assert forall|i: int| s.len() - trailing(s, class) <= i < s.len() implies class.has(
            #[trigger] s[i],
        ) by {
            if i < s.len() - 1 {
                assert(t[i] == s[i]);
            }
        }
    }
}

/// Trimming never makes a text longer, and one that it leaves as long it leaves as it is.
pub proof fn lemma_trim(s: Seq<char>, class: CharClass)
    ensures
        trim(s, class).len() <= s.len(),
        trim(s, class).len() == s.len() ==> trim(s, class) == s && leading(s, class) == 0
            && trailing(s, class) == 0,
{
    let t = trim_start(s, class);
    lemma_leading_run(s, class);
    lemma_trailing_run(t, class);
    if trim(s, class).len() == s.len() {
        assert(t =~= s);
        assert(trim(s, class) =~= s);
    }
}

/// Counts the leading characters of the class between `lo` and `hi`.
pub fn count_leading(cs: &Vec<char>, lo: usize, hi: usize, class: CharClass) -> (r: usize)
    requires
        lo <= hi <= cs@.len(),
    ensures
        r == leading(cs@.subrange(lo as int, hi as int), class),
        lo + r <= hi,
{
    let ghost s = cs@.subrange(lo as int, hi as int);
    let mut n: usize = 0;
    while n < hi - lo && class.test(cs[lo + n])
        invariant
            lo <= hi <= cs@.len(),
            n <= hi - lo,
            s == cs@.subrange(lo as int, hi as int),
            forall|i: int| 0 <= i < n ==> class.has(s[i]),
        decreases hi - lo - n,
    {
        assert(s[n as int] == cs@[lo + n]);
        n = n + 1;
    }
    proof {
        if n < s.len() {
            assert(s[n as int] == cs@[lo + n]);
        }
        lemma_leading(s, class, n as int);
    }
    n
}

/// Counts the characters before the first one of the class between `lo` and `hi`.
pub fn count_until(cs: &Vec<char>, lo: usize, hi: usize, class: CharClass) -> (r: usize)
    requires
        lo <= hi <= cs@.len(),
    ensures
        r == until(cs@.subrange(lo as int, hi as int), class),
        lo + r <= hi,
{
    let ghost s = cs@.subrange(lo as int, hi as int);
    let mut n: usize = 0;
    while n < hi - lo && !class.test(cs[lo + n])
        invariant
            lo <= hi <= cs@.len(),
            n <= hi - lo,
            s == cs@.subrange(lo as int, hi as int),
            forall|i: int| 0 <= i < n ==> !class.has(s[i]),
        decreases hi - lo - n,
    {
        assert(s[n as int] == cs@[lo + n]);
        n = n + 1;
    }
    proof {
        if n < s.len() {
            assert(s[n as int] == cs@[lo + n]);
        }
        lemma_until(s, class, n as int);
    }
    n
}

/// Counts the trailing characters of the class between `lo` and `hi`.
pub fn count_trailing(cs: &Vec<char>, lo: usize, hi: usize, class: CharClass) -> (r: usize)
    requires
        lo <= hi <= cs@.len(),
    ensures
        r == trailing(cs@.subrange(lo as int, hi as int), class),
        lo + r <= hi,
{
    let ghost s = cs@.subrange(lo as int, hi as int);
    let mut n: usize = 0;
    while n < hi - lo && class.test(cs[hi - n - 1])
        invariant
            lo <= hi <= cs@.len(),
            n <= hi - lo,
            s == cs@.subrange(lo as int, hi as int),
            forall|i: int| s.len() - n <= i < s.len() ==> class.has(s[i]),
        decreases hi - lo - n,
    {
        assert(s[s.len() - n - 1] == cs@[hi - n - 1]);
        n = n + 1;
    }
    proof {
        if n < s.len() {
            assert(s[s.len() - n - 1] == cs@[hi - n - 1]);
        }
        lemma_trailing(s, class, n as int);
    }
    n
}

/// The bounds of what is left of `lo..hi` once both ends are trimmed of the class.
pub fn trim_bounds(cs: &Vec<char>, lo: usize, hi: usize, class: CharClass) -> (r: (usize, usize))
    requires
        lo <= hi <= cs@.len(),
    ensures
        lo <= r.0 <= r.1 <= hi,
        cs@.subrange(r.0 as int, r.1 as int) == trim(cs@.subrange(lo as int, hi as int), class),
{
    let front: usize = count_leading(cs, lo, hi, class);
    let back: usize = count_trailing(cs, lo + front, hi, class);
    assert(cs@.subrange(lo as int, hi as int).skip(front as int) =~= cs@.subrange(
        lo + front,
        hi as int,
    ));
    assert(cs@.subrange(lo + front, hi as int).take(hi - lo - front - back) =~= cs@.subrange(
        lo + front,
        hi - back,
    ));
    (lo + front, hi - back)
}

// ---------------------------------------------------------------------------------------------
// Splitting
// ---------------------------------------------------------------------------------------------

/// The pieces of text between the separators, which are written `None`: one more than there are
/// separators, the empty ones counted.
pub open spec fn pieces(m: Seq<Option<char>>) -> Seq<Seq<char>>
    decreases m.len(),
{
    if m.len() == 0 {
        seq![Seq::<char>::empty()]
    } else {
        let p = pieces(m.drop_last());
        match m.last() {
            None => p.push(Seq::<char>::empty()),
            Some(c) => p.drop_last().push(p.last().push(c)),
        }
    }
}

/// The text with each character of the class turned into a separator.
pub open spec fn cut(s: Seq<char>, class: CharClass) -> Seq<Option<char>> {
    Seq::new(
        s.len(),
        |i: int|
            if class.has(s[i]) {
                None
            } else {
                Some(s[i])
            },
    )
}

/// The pieces of the text between the characters of the class.
pub open spec fn split(s: Seq<char>, class: CharClass) -> Seq<Seq<char>> {
    pieces(cut(s, class))
}

/// The texts that are not empty, in their order.
pub open spec fn nonempty(ps: Seq<Seq<char>>) -> Seq<Seq<char>>
    decreases ps.len(),
{
    if ps.len() == 0 {
        ps
    } else if ps.last().len() > 0 {
        nonempty(ps.drop_last()).push(ps.last())
    } else {
        nonempty(ps.drop_last())
    }
}

/// The words of a text: its pieces between the characters of the class that are not empty.
pub open spec fn words(s: Seq<char>, class: CharClass) -> Seq<Seq<char>> {
    nonempty(split(s, class))
}

/// There is always a first piece.
pub proof fn lemma_pieces_len(m: Seq<Option<char>>)
    ensures
        pieces(m).len() >= 1,
    decreases m.len(),
{
    if m.len() > 0 {
        lemma_pieces_len(m.drop_last());
    }
}

/// The pieces on both sides of a separator are found independently.
pub proof fn lemma_pieces_join(a: Seq<Option<char>>, b: Seq<Option<char>>)
    ensures
        pieces(a.push(None) + b) == pieces(a) + pieces(b),
    decreases b.len(),
{
    let whole = a.push(None) + b;
    if b.len() == 0 {
        assert(whole =~= a.push(None));
        assert(whole.drop_last() =~= a);
        assert(pieces(whole) =~= pieces(a) + pieces(b));
    } else {
        assert(whole.drop_last() =~= a.push(None) + b.drop_last());
        assert(whole.last() == b.last());
        lemma_pieces_join(a, b.drop_last());
        lemma_pieces_len(b.drop_last());
        let pa = pieces(a);
        let pb = pieces(b.drop_last());
        assert((pa + pb).last() == pb.last());
        assert((pa + pb).drop_last() =~= pa + pb.drop_last());
        assert(pieces(whole) =~= pieces(a) + pieces(b));
    }
}

/// Text without separators is one piece.
pub proof fn lemma_pieces_whole(m: Seq<Option<char>>, s: Seq<char>)
    requires
        m.len() == s.len(),
        forall|i: int| 0 <= i < s.len() ==> m[i] == Some(s[i]),
    ensures
        pieces(m) == seq![s],
    decreases s.len(),
{
    if s.len() == 0 {
        assert(s =~= Seq::<char>::empty());
    } else {
        lemma_pieces_whole(m.drop_last(), s.drop_last());
        assert(s.drop_last().push(s.last()) =~= s);
        assert(pieces(m) =~= seq![s]);
    }
}

/// A piece holds the characters of its stretch and no others.
pub proof fn lemma_pieces_chars(m: Seq<Option<char>>, k: int, i: int)
    requires
        0 <= k < pieces(m).len(),
        0 <= i < pieces(m)[k].len(),
    ensures
        m.contains(Some(pieces(m)[k][i])),
    decreases m.len(),
{
    if m.len() > 0 {
        let d = m.drop_last();
        let p = pieces(d);
        lemma_pieces_len(d);
        if m.last() is Some && k == p.len() - 1 && i == p.last().len() {
            assert(m[m.len() - 1] == Some(pieces(m)[k][i]));
        } else {
            lemma_pieces_chars(d, k, i);
            let j = choose|j: int| 0 <= j < d.len() && d[j] == Some(p[k][i]);
            assert(m[j] == Some(pieces(m)[k][i]));
        }
    }
}

/// No piece is longer than the whole.
pub proof fn lemma_pieces_short(m: Seq<Option<char>>, k: int)
    requires
        0 <= k < pieces(m).len(),
    ensures
        pieces(m)[k].len() <= m.len(),
    decreases m.len(),
{
    if m.len() > 0 {
        let d = m.drop_last();
        lemma_pieces_len(d);
        if k < pieces(d).len() {
            lemma_pieces_short(d, k);
        }
    }
}

/// Splitting a text at one of its separators.
pub proof fn lemma_split_join(a: Seq<char>, c: char, b: Seq<char>, class: CharClass)
    requires
        class.has(c),
    ensures
        split(a.push(c) + b, class) == split(a, class) + split(b, class),
{
    assert(cut(a.push(c) + b, class) =~= cut(a, class).push(None) + cut(b, class));
    lemma_pieces_join(cut(a, class), cut(b, class));
}

/// A text free of the class is one piece.
pub proof fn lemma_split_whole(s: Seq<char>, class: CharClass)
    requires
        forall|i: int| 0 <= i < s.len() ==> !class.has(#[trigger] s[i]),
    ensures
        split(s, class) == seq![s],
{
    lemma_pieces_whole(cut(s, class), s);
}

/// The pieces of a text are free of the class.
pub proof fn lemma_split_free(s: Seq<char>, class: CharClass, k: int)
    requires
        0 <= k < split(s, class).len(),
    ensures
        forall|i: int| 0 <= i < split(s, class)[k].len() ==> !class.has(#[trigger] split(s, class)[k][i]),
{
    assert forall|i: int| 0 <= i < split(s, class)[k].len() implies !class.has(
        #[trigger] split(s, class)[k][i],
    ) by {
        lemma_pieces_chars(cut(s, class), k, i);
    }
}

/// The pieces of a text stand in it; the last one at its end.
pub proof fn lemma_split_occurs(s: Seq<char>, class: CharClass, k: int)
    requires
        0 <= k < split(s, class).len(),
    ensures
        occurs(s, split(s, class)[k]),
        k == split(s, class).len() - 1 ==> ends(s, split(s, class)[k]),
    decreases s.len(),
{
    let p = split(s, class);
    if s.len() == 0 {
        assert(s.subrange(0, 0) =~= p[0]);
        assert(occurs_at(s, p[0], 0));
    } else {
        let d = s.drop_last();
        let q = split(d, class);
        assert(cut(s, class).drop_last() =~= cut(d, class));
        lemma_pieces_len(cut(d, class));
        if class.has(s.last()) {
            if k < q.len() {
                lemma_split_occurs(d, class, k);
                let i = choose|i: int| occurs_at(d, q[k], i);
                assert(s.subrange(i, i + q[k].len()) =~= d.subrange(i, i + q[k].len()));
                assert(occurs_at(s, p[k], i));
            } else {
                assert(s.subrange(s.len() as int, s.len() as int) =~= p[k]);
                assert(occurs_at(s, p[k], s.len() as int));
            }
        } else {
            lemma_split_occurs(d, class, k);
            if k < q.len() - 1 {
                let i = choose|i: int| occurs_at(d, q[k], i);
                assert(p[k] == q[k]);
                assert(s.subrange(i, i + q[k].len()) =~= d.subrange(i, i + q[k].len()));
                assert(occurs_at(s, p[k], i));
            } else {
                let i = d.len() - q[k].len();
                assert(p[k] == q[k].push(s.last()));
                assert(s.subrange(i, i + p[k].len()) =~= d.subrange(i, i + q[k].len()).push(
                    s.last(),
                ));
                assert(occurs_at(s, p[k], i));
            }
        }
    }
}

/// What stands in a part of a text stands in the text.
pub proof fn lemma_occurs_within(s: Seq<char>, a: Seq<char>, b: Seq<char>)
    requires
        occurs(s, a),
        occurs(a, b),
    ensures
        occurs(s, b),
{
    let i = choose|i: int| occurs_at(s, a, i);
    let j = choose|j: int| occurs_at(a, b, j);
    assert forall|k: int| 0 <= k < b.len() implies #[trigger] s[i + j + k] == b[k] by {
        assert(s.subrange(i, i + a.len())[j + k] == a[j + k]);
        assert(a.subrange(j, j + b.len())[k] == b[k]);
    }
    assert(s.subrange(i + j, i + j + b.len()) =~= b);
    assert(occurs_at(s, b, i + j));
}

/// What is not empty on either side.
pub proof fn lemma_nonempty_add(a: Seq<Seq<char>>, b: Seq<Seq<char>>)
    ensures
        nonempty(a + b) == nonempty(a) + nonempty(b),
    decreases b.len(),
{
    if b.len() == 0 {
        assert(a + b =~= a);
        assert(nonempty(a + b) =~= nonempty(a) + nonempty(b));
    } else {
        assert((a + b).drop_last() =~= a + b.drop_last());
        lemma_nonempty_add(a, b.drop_last());
        assert(nonempty(a + b) =~= nonempty(a) + nonempty(b));
    }
}

/// What [`nonempty`] keeps are texts of the list that are not empty.
pub proof fn lemma_nonempty_members(ps: Seq<Seq<char>>, k: int)
    requires
        0 <= k < nonempty(ps).len(),
    ensures
        nonempty(ps)[k].len() > 0,
        ps.contains(nonempty(ps)[k]),
    decreases ps.len(),
{
    if ps.len() > 0 {
        let d = ps.drop_last();
        if ps.last().len() > 0 && k == nonempty(d).len() {
            assert(ps[ps.len() - 1] == nonempty(ps)[k]);
        } else {
            lemma_nonempty_members(d, k);
            let j = choose|j: int| 0 <= j < d.len() && d[j] == nonempty(d)[k];
            assert(ps[j] == nonempty(ps)[k]);
        }
    }
}

/// The pieces between the separators.
pub fn pieces_of(m: &Vec<Option<char>>) -> (r: Vec<String>)
    ensures
        r.deep_view() == pieces(m@),
{
    let mut out: Vec<String> = Vec::new();
    let mut current: String = String::new();
    let mut i: usize = 0;
    assert(m@.take(0) =~= Seq::<Option<char>>::empty());
    assert(out.deep_view().push(current@) =~= pieces(m@.take(0)));
    while i < m.len()
        invariant
            i <= m@.len(),
            out.deep_view().push(current@) == pieces(m@.take(i as int)),
        decreases m@.len() - i,
    {
        let ghost before = out.deep_view();
        assert(m@.take(i + 1).drop_last() =~= m@.take(i as int));
        assert(before.push(current@).drop_last() =~= before);
        match m[i] {
            None => {
                let ghost done = current@;
                out.push(current);
                current = String::new();
                assert(out.deep_view() =~= before.push(done));
            },
            Some(c) => {
                current.push(c);
            },
        }
        assert(out.deep_view().push(current@) =~= pieces(m@.take(i + 1)));
        i = i + 1;
    }
    assert(m@.take(i as int) =~= m@);
    let ghost before = out.deep_view();
    let ghost done = current@;
    out.push(current);
    assert(out.deep_view() =~= before.push(done));
    out
}

/// The texts that are not empty.
pub fn drop_empty(ps: Vec<String>) -> (r: Vec<String>)
    ensures
        r.deep_view() == nonempty(ps.deep_view()),
{
    let mut out: Vec<String> = Vec::new();
    let mut i: usize = 0;
    assert(out.deep_view() =~= nonempty(ps.deep_view().take(0)));
    while i < ps.len()
        invariant
            i <= ps@.len(),
            out.deep_view() == nonempty(ps.deep_view().take(i as int)),
        decreases ps@.len() - i,
    {
        let ghost before = out.deep_view();
        assert(ps.deep_view().take(i + 1).drop_last() =~= ps.deep_view().take(i as int));
        if !ps[i].as_str().is_empty() {
            out.push(ps[i].clone());
            assert(out.deep_view() =~= before.push(ps@[i as int]@));
        }
        i = i + 1;
    }
    assert(ps.deep_view().take(i as int) =~= ps.deep_view());
    out
}

/// Turns the characters of the class between `lo` and `hi` into separators.
pub fn cut_at(cs: &Vec<char>, lo: usize, hi: usize, class: CharClass) -> (r: Vec<Option<char>>)
    requires
        lo <= hi <= cs@.len(),
    ensures
        r@ == cut(cs@.subrange(lo as int, hi as int), class),
{
    let mut out: Vec<Option<char>> = Vec::new();
    let mut i: usize = lo;
    while i < hi
        invariant
            lo <= i <= hi <= cs@.len(),
            out@ == cut(cs@.subrange(lo as int, i as int), class),
        decreases hi - i,
    {
        if class.test(cs[i]) {
            out.push(None);
        } else {
            out.push(Some(cs[i]));
        }
        i = i + 1;
        assert(out@ =~= cut(cs@.subrange(lo as int, i as int), class));
    }
    out
}

/// The pieces of a string between the characters of the class.
pub fn split_str(s: &str, class: CharClass) -> (r: Vec<String>)
    ensures
        r.deep_view() == split(s@, class),
{
    let cs: Vec<char> = chars_of(s);
    let marks: Vec<Option<char>> = cut_at(&cs, 0, cs.len(), class);
    assert(cs@.subrange(0, cs@.len() as int) =~= s@);
    pieces_of(&marks)
}

/// The words of a string.
pub fn words_str(s: &str, class: CharClass) -> (r: Vec<String>)
    ensures
        r.deep_view() == words(s@, class),
{
    drop_empty(split_str(s, class))
}

// ---------------------------------------------------------------------------------------------
// Searching
// ---------------------------------------------------------------------------------------------

/// Whether `pat` stands in `s` at position `i`.
pub open spec fn occurs_at(s: Seq<char>, pat: Seq<char>, i: int) -> bool {
    0 <= i && i + pat.len() <= s.len() && s.subrange(i, i + pat.len()) == pat
}

/// Whether `pat` stands anywhere in `s`.
pub open spec fn occurs(s: Seq<char>, pat: Seq<char>) -> bool {
    exists|i: int| occurs_at(s, pat, i)
}

/// The last position, at `n` or before, where `pat` stands in `s`.
pub open spec fn last_at_most(s: Seq<char>, pat: Seq<char>, n: int) -> Option<int>
    decreases n + 1,
{
    if n < 0 {
        None
    } else if occurs_at(s, pat, n) {
        Some(n)
    } else {
        last_at_most(s, pat, n - 1)
    }
}

/// The last position where `pat` stands in `s`.
pub open spec fn last_occurrence(s: Seq<char>, pat: Seq<char>) -> Option<int> {
    last_at_most(s, pat, s.len() as int)
}

/// Whether `s` begins with `pat`.
pub open spec fn begins(s: Seq<char>, pat: Seq<char>) -> bool {
    occurs_at(s, pat, 0)
}

/// Whether `s` ends with `pat`.
pub open spec fn ends(s: Seq<char>, pat: Seq<char>) -> bool {
    occurs_at(s, pat, s.len() - pat.len())
}

/// [`last_at_most`] gives an occurrence, and none follows it up to `n`.
pub proof fn lemma_last_at_most(s: Seq<char>, pat: Seq<char>, n: int)
    ensures
        match last_at_most(s, pat, n) {
            Some(p) => 0 <= p <= n && occurs_at(s, pat, p) && (forall|i: int|
                p < i <= n ==> !occurs_at(s, pat, i)),
            None => forall|i: int| i <= n ==> !occurs_at(s, pat, i),
        },
    decreases n + 1,
{
    if n >= 0 && !occurs_at(s, pat, n) {
        lemma_last_at_most(s, pat, n - 1);
    }
}

/// A position found lies within the text.
pub proof fn lemma_last_occurrence(s: Seq<char>, pat: Seq<char>)
    ensures
        match last_occurrence(s, pat) {
            Some(p) => 0 <= p && p + pat.len() <= s.len() && occurs_at(s, pat, p) && (forall|i: int|
                p < i ==> !occurs_at(s, pat, i)),
            None => forall|i: int| !occurs_at(s, pat, i),
        },
{
    lemma_last_at_most(s, pat, s.len() as int);
}

/// Tests whether `pat` stands in `cs[..hi]` at position `i`.
pub fn test_at(cs: &Vec<char>, hi: usize, pat: &Vec<char>, i: usize) -> (r: bool)
    requires
        hi <= cs@.len(),
    ensures
        r == occurs_at(cs@.take(hi as int), pat@, i as int),
{
    if i > hi || pat.len() > hi - i {
        return false;
    }
    let ghost s = cs@.take(hi as int);
    let mut k: usize = 0;
    while k < pat.len()
        invariant
            i <= hi <= cs@.len(),
            pat@.len() <= hi - i,
            k <= pat@.len(),
            s == cs@.take(hi as int),
            forall|j: int| 0 <= j < k ==> s[i + j] == pat@[j],
        decreases pat@.len() - k,
    {
        if cs[i + k] != pat[k] {
            assert(s.subrange(i as int, i + pat@.len())[k as int] != pat@[k as int]);
            return false;
        }
        k = k + 1;
    }
    assert(s.subrange(i as int, i + pat@.len()) =~= pat@);
    true
}

/// Finds the last occurrence of `pat` in `cs[..hi]`.
pub fn find_last(cs: &Vec<char>, hi: usize, pat: &Vec<char>) -> (r: Option<usize>)
    requires
        hi <= cs@.len(),
    ensures
        match r {
            Some(p) => last_occurrence(cs@.take(hi as int), pat@) == Some(p as int) && p
                + pat@.len() <= hi,
            None => last_occurrence(cs@.take(hi as int), pat@) is None,
        },
{
    let ghost s = cs@.take(hi as int);
    let mut n: usize = hi;
    loop
        invariant
            n <= hi <= cs@.len(),
            s == cs@.take(hi as int),
            last_occurrence(s, pat@) == last_at_most(s, pat@, n as int),
        decreases n,
    {
        if test_at(cs, hi, pat, n) {
            return Some(n);
        }
        if n == 0 {
            assert(last_at_most(s, pat@, -1) is None);
            return None;
        }
        n = n - 1;
    }
}

/// Tests whether one string stands in another.
pub fn contains_str(s: &str, pat: &str) -> (r: bool)
    ensures
        r == occurs(s@, pat@),
{
    let cs: Vec<char> = chars_of(s);
    let ps: Vec<char> = chars_of(pat);
    assert(cs@.take(cs@.len() as int) =~= s@);
    proof {
        lemma_last_occurrence(s@, pat@);
    }
    match find_last(&cs, cs.len(), &ps) {
        Some(p) => {
            assert(occurs_at(s@, pat@, p as int));
            true
        },
        None => false,
    }
}

/// Tests whether a string begins with another.
pub fn begins_str(s: &str, pat: &str) -> (r: bool)
    ensures
        r == begins(s@, pat@),
{
    let cs: Vec<char> = chars_of(s);
    let ps: Vec<char> = chars_of(pat);
    assert(cs@.take(cs@.len() as int) =~= s@);
    test_at(&cs, cs.len(), &ps, 0)
}

// ---------------------------------------------------------------------------------------------
// Lists of texts
// ---------------------------------------------------------------------------------------------

/// The list without its repetitions: of equal texts the first one stays.
pub open spec fn dedup(ps: Seq<Seq<char>>) -> Seq<Seq<char>>
    decreases ps.len(),
{
    if ps.len() == 0 {
        ps
    } else {
        let d = dedup(ps.drop_last());
        if d.contains(ps.last()) {
            d
        } else {
            d.push(ps.last())
        }
    }
}

/// [`dedup`] keeps each text once.
pub proof fn lemma_dedup(ps: Seq<Seq<char>>)
    ensures
        dedup(ps).no_duplicates(),
        forall|x: Seq<char>| #[trigger] dedup(ps).contains(x) <==> ps.contains(x),
    decreases ps.len(),
{
    if ps.len() > 0 {
        let d = ps.drop_last();
        lemma_dedup(d);
        assert forall|x: Seq<char>| #[trigger] dedup(ps).contains(x) <==> ps.contains(x) by {
            if ps.contains(x) && x != ps.last() {
                let i = choose|i: int| 0 <= i < ps.len() && ps[i] == x;
                assert(d[i] == x);
                assert(d.contains(x));
            }
            if d.contains(x) {
                let i = choose|i: int| 0 <= i < d.len() && d[i] == x;
                assert(ps[i] == x);
            }
            assert(ps[ps.len() - 1] == ps.last());
            if dedup(d).contains(x) {
                let i = choose|i: int| 0 <= i < dedup(d).len() && dedup(d)[i] == x;
                assert(dedup(ps)[i] == x);
            }
            if !dedup(d).contains(ps.last()) {
                assert(dedup(ps)[dedup(d).len() as int] == ps.last());
            }
        }
    }
}

/// Tests whether a list holds a text.
pub fn list_has(ps: &Vec<String>, s: &String) -> (r: bool)
    ensures
        r == ps.deep_view().contains(s@),
{
    let mut i: usize = 0;
    while i < ps.len()
        invariant
            i <= ps@.len(),
            forall|k: int| 0 <= k < i ==> ps@[k]@ != s@,
        decreases ps@.len() - i,
    {
        if ps[i] == *s {
            assert(ps.deep_view()[i as int] == s@);
            return true;
        }
        i = i + 1;
    }
    assert(forall|k: int| 0 <= k < ps@.len() ==> ps.deep_view()[k] == ps@[k]@);
    false
}

/// Appends a text to a list of distinct texts, unless it is there.
pub fn push_new(ps: &mut Vec<String>, s: String)
    ensures
        final(ps).deep_view() == if old(ps).deep_view().contains(s@) {
            old(ps).deep_view()
        } else {
            old(ps).deep_view().push(s@)
        },
{
    if !list_has(ps, &s) {
        let ghost text = s@;
        ps.push(s);
        assert(ps.deep_view() =~= old(ps).deep_view().push(text));
    }
}

// ---------------------------------------------------------------------------------------------
// Laws
// ---------------------------------------------------------------------------------------------

/// The characters of each class.
pub proof fn law_characters_of_classes(c: char)
    ensures
        CharClass::White.has(c) <==> white_space(c),
        CharClass::AsciiWhite.has(c) <==> seq![' ', '\t', '\n', '\u{c}', '\r'].contains(c),
        CharClass::Break.has(c) <==> white_space(c) || seq![
            '"',
            '\'',
            '(',
            ')',
            '[',
            ']',
            '<',
            '>',
        ].contains(c),
        CharClass::Space.has(c) <==> c == ' ',
        CharClass::Slash.has(c) <==> c == '/',
        CharClass::Equals.has(c) <==> c == '=',
        CharClass::Newline.has(c) <==> c == '\n',
        CharClass::Tab.has(c) <==> c == '\t',
        CharClass::ListMark.has(c) <==> seq![',', ';'].contains(c),
        CharClass::StopMark.has(c) <==> seq!['.', ':'].contains(c),
        CharClass::Digit.has(c) <==> seq![
            '0',
            '1',
            '2',
            '3',
            '4',
            '5',
            '6',
            '7',
            '8',
            '9',
        ].contains(c),
        CharClass::CommandStop.has(c) <==> white_space(c) || seq!['|', ';'].contains(c),
        CharClass::NameStop.has(c) <==> seq![' ', '/'].contains(c),
        CharClass::DoubleQuote.has(c) <==> c == '"',
        CharClass::SingleQuote.has(c) <==> c == '\'',
        CharClass::CloseBrace.has(c) <==> c == '}',
        CharClass::Arrow.has(c) <==> c == '\u{279c}',
        CharClass::Percent.has(c) <==> c == '%',
{
    let white = seq![' ', '\t', '\n', '\u{c}', '\r'];
    assert(white[0] == ' ' && white[1] == '\t' && white[2] == '\n' && white[3] == '\u{c}' && white[4]
        == '\r');
    let marks = seq!['"', '\'', '(', ')', '[', ']', '<', '>'];
    assert(marks[0] == '"' && marks[1] == '\'' && marks[2] == '(' && marks[3] == ')');
    assert(marks[4] == '[' && marks[5] == ']' && marks[6] == '<' && marks[7] == '>');
    let ds = seq!['0', '1', '2', '3', '4', '5', '6', '7', '8', '9'];
    assert(ds[0] == '0' && ds[1] == '1' && ds[2] == '2' && ds[3] == '3' && ds[4] == '4');
    assert(ds[5] == '5' && ds[6] == '6' && ds[7] == '7' && ds[8] == '8' && ds[9] == '9');
    let lists = seq![',', ';'];
    assert(lists[0] == ',' && lists[1] == ';');
    let stops = seq!['.', ':'];
    assert(stops[0] == '.' && stops[1] == ':');
    let ends = seq!['|', ';'];
    assert(ends[0] == '|' && ends[1] == ';');
    let names = seq![' ', '/'];
    assert(names[0] == ' ' && names[1] == '/');
}

/// Trimming takes off a front and a back made of the class, and leaves what has none of it at
/// either end.
pub proof fn law_trim_leaves_the_middle(s: Seq<char>, class: CharClass)
    ensures
        exists|a: Seq<char>, b: Seq<char>|
            s == #[trigger] (a + trim(s, class) + b) && (forall|i: int|
                0 <= i < a.len() ==> class.has(#[trigger] a[i])) && (forall|i: int|
                0 <= i < b.len() ==> class.has(#[trigger] b[i])),
        trim(s, class).len() > 0 ==> !class.has(trim(s, class)[0]) && !class.has(
            trim(s, class).last(),
        ),
{
    let n = leading(s, class);
    let t = trim_start(s, class);
    let m = t.len() - trailing(t, class);
    lemma_leading_run(s, class);
    lemma_trailing_run(t, class);
    let a = s.take(n);
    let b = t.skip(m);
    assert(s =~= a + trim(s, class) + b);
    assert forall|i: int| 0 <= i < b.len() implies class.has(#[trigger] b[i]) by {
        assert(b[i] == t[m + i]);
    }
    assert forall|i: int| 0 <= i < a.len() implies class.has(#[trigger] a[i]) by {
        assert(a[i] == s[i]);
    }
    if m > 0 {
        assert(trim(s, class)[0] == s[n]);
        assert(trim(s, class).last() == t[m - 1]);
    }
}

/// The words of a text are its pieces that are not empty, in their order.
pub proof fn law_words_are_pieces(s: Seq<char>, class: CharClass)
    ensures
        words(s, class) == split(s, class).filter(|p: Seq<char>| p.len() > 0),
{
    lemma_nonempty_filter(split(s, class));
}

/// [`nonempty`] drops what is empty, and nothing else.
pub proof fn lemma_nonempty_filter(ps: Seq<Seq<char>>)
    ensures
        nonempty(ps) == ps.filter(|p: Seq<char>| p.len() > 0),
    decreases ps.len(),
{
    reveal(Seq::filter);
    if ps.len() > 0 {
        lemma_nonempty_filter(ps.drop_last());
    }
}

/// One text stands in another just where the other is the one with something before and behind it;
/// it begins or ends the other just where it is its prefix or suffix.
pub proof fn law_occurs_between(s: Seq<char>, pat: Seq<char>)
    ensures
        occurs(s, pat) <==> exists|a: Seq<char>, b: Seq<char>| s == #[trigger] (a + pat + b),
        begins(s, pat) <==> pat.is_prefix_of(s),
        ends(s, pat) <==> pat.is_suffix_of(s),
        forall|i: int|
            #[trigger] occurs_at(s, pat, i) <==> 0 <= i && i + pat.len() <= s.len() && (
            forall|k: int| 0 <= k < pat.len() ==> s[i + k] == #[trigger] pat[k]),
{
    assert forall|i: int|
        0 <= i && i + pat.len() <= s.len() && (forall|k: int|
            0 <= k < pat.len() ==> s[i + k] == #[trigger] pat[k]) implies #[trigger] occurs_at(
        s,
        pat,
        i,
    ) by {
        assert(s.subrange(i, i + pat.len()) =~= pat);
    }
    assert forall|i: int| #[trigger] occurs_at(s, pat, i) implies (forall|k: int|
        0 <= k < pat.len() ==> s[i + k] == #[trigger] pat[k]) by {
        assert forall|k: int| 0 <= k < pat.len() implies s[i + k] == #[trigger] pat[k] by {
            assert(s.subrange(i, i + pat.len())[k] == pat[k]);
        }
    }
    if occurs(s, pat) {
        let i = choose|i: int| occurs_at(s, pat, i);
        assert(s =~= s.take(i) + pat + s.skip(i + pat.len()));
    }
    if exists|a: Seq<char>, b: Seq<char>| s == #[trigger] (a + pat + b) {
        let (a, b) = choose|a: Seq<char>, b: Seq<char>| s == #[trigger] (a + pat + b);
        assert(s.subrange(a.len() as int, a.len() as int + pat.len()) =~= pat);
        assert(occurs_at(s, pat, a.len() as int));
    }
    if pat.is_prefix_of(s) {
        assert(s.subrange(0, pat.len() as int) =~= pat);
    }
    if pat.is_suffix_of(s) {
        assert(s.subrange(s.len() - pat.len(), s.len() as int) =~= pat);
    }
    if begins(s, pat) {
        assert(pat =~= s.subrange(0, pat.len() as int));
    }
    if ends(s, pat) {
        assert(pat =~= s.subrange(s.len() - pat.len(), s.len() as int));
    }
}

/// A list without its repetitions holds what the list holds, each once, and in the order in which
/// the list has it first.
pub proof fn law_dedup_keeps_first(ps: Seq<Seq<char>>, i: int, j: int)
    requires
        0 <= i < j < dedup(ps).len(),
    ensures
        exists|m: int|
            0 <= m < ps.len() && #[trigger] ps[m] == dedup(ps)[i] && (forall|n: int|
                0 <= n <= m ==> #[trigger] ps[n] != dedup(ps)[j]),
    decreases ps.len(),
{
    if ps.len() > 0 {
        let d = ps.drop_last();
        lemma_dedup(d);
        if j < dedup(d).len() {
            law_dedup_keeps_first(d, i, j);
            let m = choose|m: int|
                0 <= m < d.len() && #[trigger] d[m] == dedup(d)[i] && (forall|n: int|
                    0 <= n <= m ==> #[trigger] d[n] != dedup(d)[j]);
            assert(ps[m] == dedup(ps)[i]);
            assert forall|n: int| 0 <= n <= m implies #[trigger] ps[n] != dedup(ps)[j] by {
                assert(d[n] == ps[n]);
            }
        } else {
            assert(dedup(d).contains(dedup(d)[i]));
            let m = choose|m: int| 0 <= m < d.len() && d[m] == dedup(d)[i];
            assert(ps[m] == dedup(ps)[i]);
            assert forall|n: int| 0 <= n <= m implies #[trigger] ps[n] != dedup(ps)[j] by {
                assert(d[n] == ps[n]);
                if d[n] == ps.last() {
                    assert(d.contains(ps.last()));
                }
            }
        }
    }
}

proof fn lemma_dedup_fixed(ps: Seq<Seq<char>>)
    requires
        ps.no_duplicates(),
    ensures
        dedup(ps) == ps,
    decreases ps.len(),
{
    if ps.len() > 0 {
        let d = ps.drop_last();
        assert forall|i: int, j: int| 0 <= i < d.len() && 0 <= j < d.len() && i != j implies d[i]
            != d[j] by {
            assert(d[i] == ps[i] && d[j] == ps[j]);
        }
        lemma_dedup_fixed(d);
        if d.contains(ps.last()) {
            let i = choose|i: int| 0 <= i < d.len() && d[i] == ps.last();
            assert(ps[i] == ps[ps.len() - 1]);
        }
        assert(d.push(ps.last()) =~= ps);
    }
}

proof fn lemma_dedup_front(a: Seq<Seq<char>>, b: Seq<Seq<char>>)
    ensures
        dedup(dedup(a) + b) == dedup(a + b),
    decreases b.len(),
{
    if b.len() == 0 {
        assert(a + b =~= a);
        assert(dedup(a) + b =~= dedup(a));
        lemma_dedup(a);
        lemma_dedup_fixed(dedup(a));
    } else {
        assert((a + b).drop_last() =~= a + b.drop_last());
        assert((dedup(a) + b).drop_last() =~= dedup(a) + b.drop_last());
        lemma_dedup_front(a, b.drop_last());
    }
}

proof fn lemma_dedup_back(a: Seq<Seq<char>>, b: Seq<Seq<char>>)
    ensures
        dedup(a + dedup(b)) == dedup(a + b),
    decreases b.len(),
{
    if b.len() == 0 {
        assert(dedup(b) =~= b);
    } else {
        let d = b.drop_last();
        let x = b.last();
        assert((a + b).drop_last() =~= a + d);
        assert((a + b).last() == x);
        lemma_dedup_back(a, d);
        if dedup(d).contains(x) {
            let i = choose|i: int| 0 <= i < dedup(d).len() && dedup(d)[i] == x;
            let whole = a + dedup(d);
            assert(whole[a.len() + i] == x);
            assert(whole.contains(x));
            lemma_dedup(whole);
            assert(dedup(whole).contains(x));
        } else {
            assert((a + dedup(b)).drop_last() =~= a + dedup(d));
            assert((a + dedup(b)).last() == x);
        }
    }
}

/// Repetitions can be taken out of two lists before they are put together.
pub proof fn law_dedup_of_two(a: Seq<Seq<char>>, b: Seq<Seq<char>>)
    ensures
        dedup(dedup(a) + dedup(b)) == dedup(a + b),
{
    lemma_dedup_front(a, dedup(b));
    lemma_dedup_back(a, b);
}

} // verus!
