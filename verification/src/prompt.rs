//! Prompts: the format string of the shell, and the lines that it drew.

use vstd::prelude::*;
use crate::text;
use crate::text::{bytes_in, chars_of, contains_str, count_leading, count_until, find_last, text_of,
    trim_bounds, words_str, CharClass};

verus! {

// ---------------------------------------------------------------------------------------------
// Parentheses
// ---------------------------------------------------------------------------------------------

/// The number of characters before the parenthesis that closes the `depth` open ones; all of them
/// where there is no such parenthesis.
pub open spec fn content_len(s: Seq<char>, depth: nat) -> int
    decreases s.len(),
{
    if s.len() == 0 {
        0
    } else if s[0] == '(' {
        1 + content_len(s.skip(1), depth + 1)
    } else if s[0] == ')' {
        if depth <= 1 {
            0
        } else {
            1 + content_len(s.skip(1), (depth - 1) as nat)
        }
    } else {
        1 + content_len(s.skip(1), depth)
    }
}

/// What stands between an opening parenthesis just before the text and the one that closes it.
pub open spec fn paren_content(s: Seq<char>) -> Seq<char> {
    s.take(content_len(s, 1))
}

/// The number of characters up to and with that closing parenthesis.
pub open spec fn paren_end(s: Seq<char>) -> int {
    if content_len(s, 1) < s.len() {
        content_len(s, 1) + 1
    } else {
        s.len() as int
    }
}

/// [`content_len`] lies within the text.
pub proof fn lemma_content_len(s: Seq<char>, depth: nat)
    ensures
        0 <= content_len(s, depth) <= s.len(),
    decreases s.len(),
{
    if s.len() > 0 {
        lemma_content_len(s.skip(1), depth);
        lemma_content_len(s.skip(1), depth + 1);
        if depth > 1 {
            lemma_content_len(s.skip(1), (depth - 1) as nat);
        }
    }
}

/// Reads on from `pos` up to the parenthesis that closes the one just before `pos`; leaves `pos`
/// behind it.
pub fn collect_paren_content(chars: &Vec<char>, pos: &mut usize) -> (r: String)
    requires
        *old(pos) <= chars@.len(),
    ensures
        r@ == paren_content(chars@.skip(*old(pos) as int)),
        *final(pos) == *old(pos) + paren_end(chars@.skip(*old(pos) as int)),
        *old(pos) <= *final(pos) <= chars@.len(),
{
    let start: usize = *pos;
    let ghost s = chars@.skip(start as int);
    let mut i: usize = start;
    let mut nested: usize = 0;
    let mut closed: bool = false;
    assert(s.skip(0) =~= s);
    while i < chars.len() && !closed
        invariant
            start <= i <= chars@.len(),
            s == chars@.skip(start as int),
            nested <= i - start,
            !closed ==> content_len(s, 1) == (i - start) + content_len(
                s.skip(i - start),
                (nested + 1) as nat,
            ),
            closed ==> content_len(s, 1) == i - start && i < chars@.len(),
        decreases chars@.len() - i, (if closed { 0int } else { 1int }),
    {
        let ghost t = s.skip(i - start);
        assert(t[0] == chars@[i as int]);
        assert(t.skip(1) =~= s.skip(i + 1 - start));
        let c: char = chars[i];
        if c == ')' && nested == 0 {
            closed = true;
        } else {
            if c == '(' {
                nested = nested + 1;
            } else if c == ')' {
                nested = nested - 1;
            }
            i = i + 1;
        }
    }
    if !closed {
        assert(s.skip(i - start).len() == 0);
    }
    *pos = if closed {
        i + 1
    } else {
        i
    };
    assert(s.take(i - start) =~= chars@.subrange(start as int, i as int));
    text_of(chars, start, i)
}

/// The number of parentheses open at the end of the text; one too many that closes counts for
/// nothing.
pub open spec fn depth(s: Seq<char>) -> nat
    decreases s.len(),
{
    if s.len() == 0 {
        0
    } else {
        let d = depth(s.drop_last());
        if s.last() == '(' {
            d + 1
        } else if s.last() == ')' && d > 0 {
            (d - 1) as nat
        } else {
            d
        }
    }
}

/// The text with each colon outside all parentheses turned into a separator.
pub open spec fn colon_marks(s: Seq<char>) -> Seq<Option<char>> {
    Seq::new(
        s.len(),
        |i: int|
            if s[i] == ':' && depth(s.take(i)) == 0 {
                None
            } else {
                Some(s[i])
            },
    )
}

/// The parts of a text between the colons outside all parentheses.
pub open spec fn top_parts(s: Seq<char>) -> Seq<Seq<char>> {
    text::pieces(colon_marks(s))
}

/// Splits at the colons outside all parentheses.
pub fn split_top_colons<'a>(s: &'a str) -> (r: Vec<&'a str>)
    ensures
        r.deep_view() == top_parts(s@),
{
    let cs: Vec<char> = chars_of(s);
    let ghost marks = colon_marks(s@);
    let mut parts: Vec<&'a str> = Vec::new();
    let mut open: usize = 0;
    let mut start: usize = 0;
    let mut i: usize = 0;
    assert(s@.subrange(0, 0) =~= Seq::<char>::empty());
    assert(parts.deep_view().push(s@.subrange(0, 0)) =~= text::pieces(marks.take(0)));
    while i < cs.len()
        invariant
            start <= i <= cs@.len(),
            cs@ == s@,
            marks == colon_marks(s@),
            open <= i,
            open == depth(s@.take(i as int)),
            parts.deep_view().push(s@.subrange(start as int, i as int)) == text::pieces(
                marks.take(i as int),
            ),
        decreases cs@.len() - i,
    {
        let ghost before = parts.deep_view();
        let ghost piece = s@.subrange(start as int, i as int);
        let c: char = cs[i];
        assert(marks.take(i + 1).drop_last() =~= marks.take(i as int));
        assert(marks.take(i + 1).last() == marks[i as int]);
        assert(s@.take(i + 1).drop_last() =~= s@.take(i as int));
        assert(before.push(piece).drop_last() =~= before);
        if c == ':' && open == 0 {
            parts.push(s.substring_char(start, i));
            start = i + 1;
            assert(parts.deep_view() =~= before.push(piece));
            assert(s@.subrange(start as int, i + 1) =~= Seq::<char>::empty());
        } else {
            if c == '(' {
                open = open + 1;
            } else if c == ')' && open > 0 {
                open = open - 1;
            }
            assert(s@.subrange(start as int, i + 1) =~= piece.push(c));
        }
        i = i + 1;
    }
    let ghost before = parts.deep_view();
    let ghost piece = s@.subrange(start as int, i as int);
    assert(marks.take(i as int) =~= marks);
    parts.push(s.substring_char(start, i));
    assert(parts.deep_view() =~= before.push(piece));
    parts
}

// ---------------------------------------------------------------------------------------------
// The format string
// ---------------------------------------------------------------------------------------------

/// The number of characters up to and with the first `%` and the character behind it; all of them
/// where there is none.
pub open spec fn percent_end(s: Seq<char>) -> int {
    if text::until(s, CharClass::Percent) + 2 <= s.len() {
        text::until(s, CharClass::Percent) + 2
    } else {
        s.len() as int
    }
}

/// The position of the first `%}`.
pub open spec fn group_mark(s: Seq<char>) -> Option<int>
    decreases s.len(),
{
    if s.len() < 2 {
        None
    } else if s[0] == '%' && s[1] == '}' {
        Some(0)
    } else {
        match group_mark(s.skip(1)) {
            Some(i) => Some(i + 1),
            None => None,
        }
    }
}

/// The number of characters up to and with the `%}` that ends a group. A group that has no such end
/// goes no further than its first `%` and the character behind it.
pub open spec fn group_end(s: Seq<char>) -> int {
    match group_mark(s) {
        Some(i) => i + 2,
        None => percent_end(s),
    }
}

/// [`group_mark`] finds a `%}`, and none stands before it.
pub proof fn lemma_group_mark(s: Seq<char>)
    ensures
        match group_mark(s) {
            Some(i) => 0 <= i && i + 2 <= s.len() && s[i] == '%' && s[i + 1] == '}' && (forall|k: int|
                0 <= k < i && #[trigger] s[k] == '%' ==> s[k + 1] != '}'),
            None => forall|k: int| 0 <= k < s.len() - 1 && #[trigger] s[k] == '%' ==> s[k + 1] != '}',
        },
    decreases s.len(),
{
    if s.len() >= 2 && !(s[0] == '%' && s[1] == '}') {
        let t = s.skip(1);
        lemma_group_mark(t);
        assert(forall|k: int| 1 <= k < s.len() ==> #[trigger] s[k] == t[k - 1]);
    }
}

/// [`group_end`] lies within the text.
pub proof fn lemma_group_end(s: Seq<char>)
    ensures
        0 <= group_end(s) <= s.len(),
{
    lemma_group_mark(s);
    text::lemma_until_run(s, CharClass::Percent);
}

/// Finds the position behind the first `%` from `from` on and the character behind it.
fn find_percent_end(chars: &Vec<char>, from: usize) -> (r: usize)
    requires
        from <= chars@.len(),
    ensures
        r == from + percent_end(chars@.skip(from as int)),
        from <= r <= chars@.len(),
{
    assert(chars@.subrange(from as int, chars@.len() as int) =~= chars@.skip(from as int));
    let n: usize = count_until(chars, from, chars.len(), CharClass::Percent);
    if chars.len() - from - n >= 2 {
        from + n + 2
    } else {
        chars.len()
    }
}

/// Finds the position behind the group that begins at `from`.
fn find_group_end(chars: &Vec<char>, from: usize) -> (r: usize)
    requires
        from <= chars@.len(),
    ensures
        r == from + group_end(chars@.skip(from as int)),
        from <= r <= chars@.len(),
{
    let ghost s = chars@.skip(from as int);
    let mut i: usize = from;
    assert(s.skip(0) =~= s);
    while chars.len() - i >= 2
        invariant
            from <= i <= chars@.len(),
            s == chars@.skip(from as int),
            group_mark(s) == match group_mark(s.skip(i - from)) {
                Some(k) => Some(k + (i - from)),
                None => None,
            },
        decreases chars@.len() - i,
    {
        let ghost t = s.skip(i - from);
        assert(t[0] == chars@[i as int] && t[1] == chars@[i + 1]);
        assert(t.skip(1) =~= s.skip(i + 1 - from));
        if chars[i] == '%' && chars[i + 1] == '}' {
            return i + 2;
        }
        i = i + 1;
    }
    find_percent_end(chars, from)
}

/// What a conditional shows: the pattern of its true branch, the second of its parts.
pub open spec fn true_branch(content: Seq<char>) -> Option<Seq<char>> {
    if top_parts(content).len() >= 2 {
        Some(top_parts(content)[1])
    } else {
        None
    }
}

/// The text that a prompt format draws for certain: `$(..)` and the codes of `%` leave nothing,
/// `%{..%}` neither, `%1{..%}` leaves its inside, `%(..)` the pattern of its true branch.
pub open spec fn expand(s: Seq<char>) -> Seq<char>
    decreases s.len(),
{
    if s.len() == 0 {
        Seq::<char>::empty()
    } else if s[0] == '$' && s.len() > 1 && s[1] == '(' {
        proof {
            lemma_content_len(s.skip(2), 1);
        }
        expand(s.skip(2 + paren_end(s.skip(2))))
    } else if s[0] != '%' {
        seq![s[0]] + expand(s.skip(1))
    } else if s.len() == 1 {
        Seq::<char>::empty()
    } else if s[1] == '{' {
        proof {
            lemma_group_end(s.skip(2));
        }
        expand(s.skip(2 + group_end(s.skip(2))))
    } else if s[1] == '(' {
        proof {
            lemma_content_len(s.skip(2), 1);
            lemma_true_branch(paren_content(s.skip(2)));
        }
        let shown = match true_branch(paren_content(s.skip(2))) {
            Some(b) => text::trim(expand(b), CharClass::White),
            None => Seq::<char>::empty(),
        };
        shown + expand(s.skip(2 + paren_end(s.skip(2))))
    } else if s[1] == '1' && s.len() > 2 && s[2] == '{' {
        proof {
            text::lemma_until_run(s.skip(3), CharClass::Percent);
        }
        s.skip(3).take(text::until(s.skip(3), CharClass::Percent)) + expand(
            s.skip(3 + percent_end(s.skip(3))),
        )
    } else {
        expand(s.skip(2))
    }
}

/// The pattern of a prompt format: what it draws for certain, trimmed.
pub open spec fn pattern(prompt: Seq<char>) -> Seq<char> {
    text::trim(expand(prompt), CharClass::White)
}

/// The true branch is no longer than the conditional.
pub proof fn lemma_true_branch(content: Seq<char>)
    ensures
        true_branch(content) matches Some(b) ==> b.len() <= content.len(),
{
    if top_parts(content).len() >= 2 {
        text::lemma_pieces_short(colon_marks(content), 1);
    }
}

/// The stable text of a prompt format.
pub fn parse_prompt_pattern(prompt: &str) -> (r: String)
    ensures
        r@ == pattern(prompt@),
    decreases prompt@.len(),
{
    let cs: Vec<char> = chars_of(prompt);
    let mut out: String = String::new();
    let mut i: usize = 0;
    assert(cs@.skip(0) =~= cs@);
    assert(out@ + expand(cs@) =~= expand(cs@));
    while i < cs.len()
        invariant
            i <= cs@.len(),
            cs@ == prompt@,
            out@ + expand(cs@.skip(i as int)) == expand(cs@),
        decreases cs@.len() - i,
    {
        let ghost s = cs@.skip(i as int);
        let ghost before = out@;
        assert(s[0] == cs@[i as int]);
        let left: usize = cs.len() - i;
        if left > 1 {
            assert(s[1] == cs@[i + 1]);
            assert(s.skip(2) =~= cs@.skip(i + 2));
        }
        assert(s.skip(1) =~= cs@.skip(i + 1));
        if cs[i] == '$' && left > 1 && cs[i + 1] == '(' {
            let mut pos: usize = i + 2;
            let _ = collect_paren_content(&cs, &mut pos);
            assert(s.skip(pos - i) =~= cs@.skip(pos as int));
            i = pos;
        } else if cs[i] != '%' {
            out.push(cs[i]);
            i = i + 1;
        } else if left == 1 {
            i = i + 1;
            assert(expand(cs@.skip(i as int)) =~= Seq::<char>::empty());
        } else if cs[i + 1] == '{' {
            let end: usize = find_group_end(&cs, i + 2);
            assert(s.skip(end - i) =~= cs@.skip(end as int));
            i = end;
        } else if cs[i + 1] == '(' {
            let mut pos: usize = i + 2;
            let content: String = collect_paren_content(&cs, &mut pos);
            proof {
                lemma_content_len(s.skip(2), 1);
                lemma_true_branch(content@);
            }
            assert(content@ == paren_content(s.skip(2)));
            let parts: Vec<&str> = split_top_colons(content.as_str());
            if parts.len() >= 2 {
                assert(parts.deep_view()[1] == parts@[1]@);
                let branch: String = parse_prompt_pattern(parts[1]);
                out.append(branch.as_str());
            }
            assert(s.skip(pos - i) =~= cs@.skip(pos as int));
            i = pos;
        } else if cs[i + 1] == '1' && left > 2 && cs[i + 2] == '{' {
            assert(s[2] == cs@[i + 2]);
            assert(s.skip(3) =~= cs@.skip(i + 3));
            assert(cs@.subrange(i + 3, cs@.len() as int) =~= s.skip(3));
            let n: usize = count_until(&cs, i + 3, cs.len(), CharClass::Percent);
            let inside: String = text_of(&cs, i + 3, i + 3 + n);
            assert(inside@ =~= s.skip(3).take(n as int));
            out.append(inside.as_str());
            let end: usize = find_percent_end(&cs, i + 3);
            assert(s.skip(end - i) =~= cs@.skip(end as int));
            i = end;
        } else {
            if left > 2 {
                assert(s[2] == cs@[i + 2]);
            }
            i = i + 2;
        }
        assert(out@ + expand(cs@.skip(i as int)) =~= before + expand(s));
    }
    assert(out@ =~= expand(prompt@));
    let all: Vec<char> = chars_of(out.as_str());
    assert(all@.subrange(0, all@.len() as int) =~= out@);
    let (a, b): (usize, usize) = trim_bounds(&all, 0, all.len(), CharClass::White);
    text_of(&all, a, b)
}

/// The texts of at least two bytes, in their order.
pub open spec fn two_bytes(ps: Seq<Seq<char>>) -> Seq<Seq<char>>
    decreases ps.len(),
{
    if ps.len() == 0 {
        ps
    } else if text::byte_len(ps.last()) >= 2 {
        two_bytes(ps.drop_last()).push(ps.last())
    } else {
        two_bytes(ps.drop_last())
    }
}

/// The texts by which the lines of a prompt are known: the words of its pattern, without those of
/// a single byte.
pub open spec fn literals(prompt: Seq<char>) -> Seq<Seq<char>> {
    two_bytes(text::words(pattern(prompt), CharClass::White))
}

/// The texts by which the lines of a prompt are known.
pub fn prompt_literals(prompt: &str) -> (r: Vec<String>)
    ensures
        r.deep_view() == literals(prompt@),
{
    let shown: String = parse_prompt_pattern(prompt);
    let words: Vec<String> = words_str(shown.as_str(), CharClass::White);
    let mut out: Vec<String> = Vec::new();
    let mut i: usize = 0;
    assert(out.deep_view() =~= two_bytes(words.deep_view().take(0)));
    while i < words.len()
        invariant
            i <= words@.len(),
            out.deep_view() == two_bytes(words.deep_view().take(i as int)),
        decreases words@.len() - i,
    {
        let ghost before = out.deep_view();
        assert(words.deep_view().take(i + 1).drop_last() =~= words.deep_view().take(i as int));
        assert(words.deep_view().take(i + 1).last() == words@[i as int]@);
        if bytes_in(words[i].as_str()) >= 2 {
            out.push(words[i].clone());
            assert(out.deep_view() =~= before.push(words@[i as int]@));
        }
        i = i + 1;
    }
    assert(words.deep_view().take(i as int) =~= words.deep_view());
    out
}

// ---------------------------------------------------------------------------------------------
// Lines that a prompt drew
// ---------------------------------------------------------------------------------------------

/// Whether a line shows a prompt: there are literals, and it contains all of them.
pub open spec fn prompt_line(line: Seq<char>, lits: Seq<Seq<char>>) -> bool {
    lits.len() > 0 && forall|i: int| 0 <= i < lits.len() ==> text::occurs(line, #[trigger] lits[i])
}

/// Tests whether a line shows a prompt.
pub fn is_prompt_line(line: &str, prompt_literals: &[&str]) -> (r: bool)
    ensures
        r == prompt_line(line@, prompt_literals.deep_view()),
{
    let ghost lits = prompt_literals.deep_view();
    if prompt_literals.len() == 0 {
        return false;
    }
    let mut i: usize = 0;
    while i < prompt_literals.len()
        invariant
            i <= prompt_literals@.len(),
            lits == prompt_literals.deep_view(),
            forall|k: int| 0 <= k < i ==> text::occurs(line@, #[trigger] lits[k]),
        decreases prompt_literals@.len() - i,
    {
        assert(lits[i as int] == prompt_literals@[i as int]@);
        if !contains_str(line, prompt_literals[i]) {
            return false;
        }
        i = i + 1;
    }
    true
}

/// The position behind the last occurrence of any of the literals, the start where none occurs.
pub open spec fn last_end(line: Seq<char>, lits: Seq<Seq<char>>) -> int
    decreases lits.len(),
{
    if lits.len() == 0 {
        0
    } else {
        let m = last_end(line, lits.drop_last());
        match text::last_occurrence(line, lits.last()) {
            Some(p) => if p + lits.last().len() > m {
                p + lits.last().len()
            } else {
                m
            },
            None => m,
        }
    }
}

/// The command that stands on a prompt line: what follows all literals, trimmed.
pub open spec fn command_in(line: Seq<char>, lits: Seq<Seq<char>>) -> Seq<char> {
    text::trim(line.skip(last_end(line, lits)), CharClass::White)
}

/// The command on a prompt line.
pub fn extract_command_from_prompt_line<'a>(line: &'a str, prompt_literals: &[&str]) -> (r: &'a str)
    ensures
        r@ == command_in(line@, prompt_literals.deep_view()),
{
    let cs: Vec<char> = chars_of(line);
    let ghost lits = prompt_literals.deep_view();
    assert(cs@.take(cs@.len() as int) =~= line@);
    let mut end: usize = 0;
    let mut i: usize = 0;
    while i < prompt_literals.len()
        invariant
            i <= prompt_literals@.len(),
            cs@ == line@,
            cs@.take(cs@.len() as int) == line@,
            lits == prompt_literals.deep_view(),
            end <= cs@.len(),
            end == last_end(line@, lits.take(i as int)),
        decreases prompt_literals@.len() - i,
    {
        let lit: Vec<char> = chars_of(prompt_literals[i]);
        assert(lits.take(i + 1).drop_last() =~= lits.take(i as int));
        assert(lits.take(i + 1).last() == lit@);
        if let Some(p) = find_last(&cs, cs.len(), &lit) {
            if p + lit.len() > end {
                end = p + lit.len();
            }
        }
        i = i + 1;
    }
    assert(lits.take(i as int) =~= lits);
    let (a, b): (usize, usize) = trim_bounds(&cs, end, cs.len(), CharClass::White);
    assert(cs@.subrange(end as int, cs@.len() as int) =~= line@.skip(end as int));
    line.substring_char(a, b)
}

/// What comes before the target of a change of directory.
pub open spec fn cd_mark() -> Seq<char> {
    seq![' ', 'c', 'd', ' ']
}

/// The target in what follows a [`cd_mark`]: up to white space, `|` or `;`.
pub open spec fn target_in(rest: Seq<char>) -> Seq<char> {
    let t = text::trim(rest, CharClass::White);
    t.take(text::until(t, CharClass::CommandStop))
}

/// The target of the last change of directory in a line that has one.
pub open spec fn cd_target(line: Seq<char>) -> Option<Seq<char>>
    decreases line.len(),
{
    proof {
        text::lemma_last_occurrence(line, cd_mark());
    }
    match text::last_occurrence(line, cd_mark()) {
        Some(p) => {
            let target = target_in(line.skip(p + 4));
            if target.len() > 0 {
                Some(target)
            } else {
                cd_target(line.take(p))
            }
        },
        None => None,
    }
}

/// Finds the target of the last `cd` in a line.
pub fn find_cd_in_line<'a>(line: &'a str) -> (r: Option<&'a str>)
    ensures
        match r {
            Some(t) => cd_target(line@) == Some(t@),
            None => cd_target(line@) is None,
        },
{
    let cs: Vec<char> = chars_of(line);
    let mark: Vec<char> = chars_of(" cd ");
    proof {
        reveal_strlit(" cd ");
        assert(mark@ =~= cd_mark());
    }
    let mut hi: usize = cs.len();
    assert(cs@.take(hi as int) =~= line@);
    loop
        invariant
            hi <= cs@.len(),
            cs@ == line@,
            mark@ == cd_mark(),
            cd_target(line@) == cd_target(cs@.take(hi as int)),
        decreases hi,
    {
        let ghost s = cs@.take(hi as int);
        match find_last(&cs, hi, &mark) {
            Some(p) => {
                let (a, b): (usize, usize) = trim_bounds(&cs, p + 4, hi, CharClass::White);
                assert(cs@.subrange(p + 4, hi as int) =~= s.skip(p + 4));
                let n: usize = count_until(&cs, a, b, CharClass::CommandStop);
                assert(cs@.subrange(a as int, a + n) =~= target_in(s.skip(p + 4)));
                if n > 0 {
                    return Some(line.substring_char(a, a + n));
                }
                assert(s.take(p as int) =~= cs@.take(p as int));
                hi = p;
            },
            None => {
                return None;
            },
        }
    }
}

/// The name of the directory that a prompt line shows: the word behind the first arrow, up to a
/// space or `/`.
pub open spec fn dirname_in(line: Seq<char>) -> Option<Seq<char>> {
    let i = text::until(line, CharClass::Arrow);
    if i < line.len() {
        let rest = text::trim_start(line.skip(i + 1), CharClass::Space);
        let name = rest.take(text::until(rest, CharClass::NameStop));
        if name.len() > 0 {
            Some(name)
        } else {
            None
        }
    } else {
        None
    }
}

/// The name of the directory that a prompt line shows.
pub fn prompt_line_dirname<'a>(line: &'a str) -> (r: Option<&'a str>)
    ensures
        match r {
            Some(t) => dirname_in(line@) == Some(t@),
            None => dirname_in(line@) is None,
        },
{
    let cs: Vec<char> = chars_of(line);
    assert(cs@.subrange(0, cs@.len() as int) =~= line@);
    let i: usize = count_until(&cs, 0, cs.len(), CharClass::Arrow);
    if i >= cs.len() {
        return None;
    }
    let spaces: usize = count_leading(&cs, i + 1, cs.len(), CharClass::Space);
    let from: usize = i + 1 + spaces;
    assert(cs@.subrange(i + 1, cs@.len() as int) =~= line@.skip(i + 1));
    assert(cs@.subrange(from as int, cs@.len() as int) =~= line@.skip(i + 1).skip(spaces as int));
    let n: usize = count_until(&cs, from, cs.len(), CharClass::NameStop);
    if n == 0 {
        return None;
    }
    let name: &'a str = line.substring_char(from, from + n);
    assert(name@ =~= cs@.subrange(from as int, cs@.len() as int).take(n as int));
    Some(name)
}

// ---------------------------------------------------------------------------------------------
// Laws
// ---------------------------------------------------------------------------------------------

/// A format without codes and substitutions draws itself.
pub proof fn law_plain_text_is_drawn(s: Seq<char>)
    requires
        forall|i: int| 0 <= i < s.len() ==> #[trigger] s[i] != '%',
        forall|i: int| 0 <= i < s.len() - 1 && #[trigger] s[i] == '$' ==> s[i + 1] != '(',
    ensures
        expand(s) == s,
    decreases s.len(),
{
    if s.len() > 0 {
        let t = s.skip(1);
        assert forall|i: int| 0 <= i < t.len() implies #[trigger] t[i] != '%' by {
            assert(t[i] == s[i + 1]);
        }
        assert forall|i: int| 0 <= i < t.len() - 1 && #[trigger] t[i] == '$' implies t[i + 1]
            != '(' by {
            assert(t[i] == s[i + 1]);
        }
        law_plain_text_is_drawn(t);
        assert(expand(s) =~= s);
    }
}

/// A colour group `%{..%}` leaves nothing, whatever stands in it before its `%}`.
pub proof fn law_colour_group_vanishes(x: Seq<char>, rest: Seq<char>)
    requires
        forall|i: int| 0 <= i < x.len() - 1 && #[trigger] x[i] == '%' ==> x[i + 1] != '}',
    ensures
        expand(seq!['%', '{'] + x + seq!['%', '}'] + rest) == expand(rest),
{
    let s = seq!['%', '{'] + x + seq!['%', '}'] + rest;
    let inner = x + seq!['%', '}'] + rest;
    let n = x.len() as int;
    assert(s[0] == '%' && s[1] == '{');
    assert(s.skip(2) =~= inner);
    lemma_group_mark(inner);
    assert(inner[n] == '%' && inner[n + 1] == '}');
    assert(group_mark(inner) == Some(n)) by {
        match group_mark(inner) {
            Some(i) => {
                if i < n {
                    assert(inner[i] == x[i]);
                    if i + 1 < n {
                        assert(inner[i + 1] == x[i + 1]);
                    }
                }
            },
            None => {},
        }
    }
    assert(s.skip(2 + group_end(inner)) =~= rest);
}

/// No `%` is left of a format.
pub proof fn law_pattern_has_no_percent(s: Seq<char>)
    ensures
        !expand(s).contains('%'),
        !pattern(s).contains('%'),
    decreases s.len(),
{
    let e = expand(s);
    if s.len() == 0 {
    } else if s[0] == '$' && s.len() > 1 && s[1] == '(' {
        lemma_content_len(s.skip(2), 1);
        law_pattern_has_no_percent(s.skip(2 + paren_end(s.skip(2))));
    } else if s[0] != '%' {
        law_pattern_has_no_percent(s.skip(1));
        lemma_contains_either(seq![s[0]], expand(s.skip(1)), '%');
    } else if s.len() == 1 {
    } else if s[1] == '{' {
        lemma_group_end(s.skip(2));
        law_pattern_has_no_percent(s.skip(2 + group_end(s.skip(2))));
    } else if s[1] == '(' {
        let content = paren_content(s.skip(2));
        let after = s.skip(2 + paren_end(s.skip(2)));
        lemma_content_len(s.skip(2), 1);
        lemma_true_branch(content);
        law_pattern_has_no_percent(after);
        match true_branch(content) {
            Some(b) => {
                law_pattern_has_no_percent(b);
                lemma_contains_either(pattern(b), expand(after), '%');
            },
            None => {
                lemma_contains_either(Seq::<char>::empty(), expand(after), '%');
            },
        }
    } else if s[1] == '1' && s.len() > 2 && s[2] == '{' {
        let inner = s.skip(3);
        let n = text::until(inner, CharClass::Percent);
        text::lemma_until_run(inner, CharClass::Percent);
        law_pattern_has_no_percent(s.skip(3 + percent_end(inner)));
        assert(!inner.take(n).contains('%')) by {
            if inner.take(n).contains('%') {
                let i = choose|i: int| 0 <= i < n && inner.take(n)[i] == '%';
                assert(!CharClass::Percent.has(inner[i]));
            }
        }
        lemma_contains_either(inner.take(n), expand(s.skip(3 + percent_end(inner))), '%');
    } else {
        law_pattern_has_no_percent(s.skip(2));
    }
    let t = text::trim_start(e, CharClass::White);
    text::lemma_leading_run(e, CharClass::White);
    text::lemma_trailing_run(t, CharClass::White);
    if pattern(s).contains('%') {
        let i = choose|i: int| 0 <= i < pattern(s).len() && pattern(s)[i] == '%';
        assert(e[i + text::leading(e, CharClass::White)] == '%');
    }
}

proof fn lemma_contains_either(a: Seq<char>, b: Seq<char>, c: char)
    ensures
        (a + b).contains(c) ==> a.contains(c) || b.contains(c),
{
    if (a + b).contains(c) {
        let i = choose|i: int| 0 <= i < a.len() + b.len() && (a + b)[i] == c;
        if i < a.len() {
            assert(a[i] == c);
        } else {
            assert(b[i - a.len()] == c);
        }
    }
}

/// A literal block `%1{..%}` leaves its inside.
pub proof fn law_literal_block_is_kept(x: Seq<char>, rest: Seq<char>)
    requires
        forall|i: int| 0 <= i < x.len() ==> #[trigger] x[i] != '%',
    ensures
        expand(seq!['%', '1', '{'] + x + seq!['%', '}'] + rest) == x + expand(rest),
{
    let s = seq!['%', '1', '{'] + x + seq!['%', '}'] + rest;
    let inner = x + seq!['%', '}'] + rest;
    assert(s[0] == '%' && s[1] == '1' && s[2] == '{');
    assert(s.skip(3) =~= inner);
    assert(inner[x.len() as int] == '%');
    text::lemma_until(inner, CharClass::Percent, x.len() as int);
    assert(inner.take(x.len() as int) =~= x);
    assert(s.skip(3 + percent_end(inner)) =~= rest);
}

/// Whether a parenthesis right behind a text closes the one right before it.
pub open spec fn enclosed(x: Seq<char>) -> bool {
    content_len(x.push(')'), 1) == x.len()
}

/// What follows the closing parenthesis makes no difference.
proof fn lemma_content_len_front(a: Seq<char>, b: Seq<char>, depth: nat)
    requires
        content_len(a, depth) < a.len(),
    ensures
        content_len(a + b, depth) == content_len(a, depth),
    decreases a.len(),
{
    if a.len() > 0 {
        let t = a.skip(1);
        assert((a + b)[0] == a[0]);
        assert((a + b).skip(1) =~= t + b);
        if a[0] == '(' {
            lemma_content_len_front(t, b, depth + 1);
        } else if a[0] == ')' {
            if depth > 1 {
                lemma_content_len_front(t, b, (depth - 1) as nat);
            }
        } else {
            lemma_content_len_front(t, b, depth);
        }
    }
}

proof fn lemma_enclosed(x: Seq<char>, rest: Seq<char>)
    requires
        enclosed(x),
    ensures
        paren_content(x.push(')') + rest) == x,
        paren_end(x.push(')') + rest) == x.len() + 1,
{
    lemma_content_len_front(x.push(')'), rest, 1);
    assert((x.push(')') + rest).take(x.len() as int) =~= x);
}

/// A command substitution `$(..)` leaves nothing.
pub proof fn law_substitution_vanishes(x: Seq<char>, rest: Seq<char>)
    requires
        enclosed(x),
    ensures
        expand(seq!['$', '('] + x + seq![')'] + rest) == expand(rest),
{
    let s = seq!['$', '('] + x + seq![')'] + rest;
    let inner = x.push(')') + rest;
    assert(s[0] == '$' && s[1] == '(');
    assert(s.skip(2) =~= inner);
    lemma_enclosed(x, rest);
    assert(s.skip(3 + x.len() as int) =~= rest);
}

/// A conditional `%(..)` leaves the pattern of its true branch.
pub proof fn law_conditional_shows_true_branch(x: Seq<char>, branch: Seq<char>, rest: Seq<char>)
    requires
        enclosed(x),
        true_branch(x) == Some(branch),
    ensures
        expand(seq!['%', '('] + x + seq![')'] + rest) == pattern(branch) + expand(rest),
{
    let s = seq!['%', '('] + x + seq![')'] + rest;
    let inner = x.push(')') + rest;
    assert(s[0] == '%' && s[1] == '(');
    assert(s.skip(2) =~= inner);
    lemma_enclosed(x, rest);
    assert(s.skip(3 + x.len() as int) =~= rest);
}

proof fn lemma_depth_join(a: Seq<char>, b: Seq<char>)
    requires
        depth(a) == 0,
    ensures
        depth(a + b) == depth(b),
    decreases b.len(),
{
    if b.len() == 0 {
        assert(a + b =~= a);
    } else {
        assert((a + b).drop_last() =~= a + b.drop_last());
        assert((a + b).last() == b.last());
        lemma_depth_join(a, b.drop_last());
    }
}

/// Whether a text closes all parentheses that it opens, and has no colon outside them.
pub open spec fn one_part(s: Seq<char>) -> bool {
    depth(s) == 0 && forall|i: int|
        0 <= i < s.len() && #[trigger] s[i] == ':' ==> depth(s.take(i)) != 0
}

proof fn lemma_top_parts_join(a: Seq<char>, b: Seq<char>)
    requires
        one_part(a),
    ensures
        top_parts(a.push(':') + b) == seq![a] + top_parts(b),
{
    let whole = a.push(':') + b;
    let ma = colon_marks(a);
    let mb = colon_marks(b);
    assert forall|i: int| 0 <= i < whole.len() implies colon_marks(whole)[i] == (ma.push(None)
        + mb)[i] by {
        if i < a.len() {
            assert(whole[i] == a[i]);
            assert(whole.take(i) =~= a.take(i));
        } else if i == a.len() {
            assert(whole.take(i) =~= a);
        } else {
            let j = i - a.len() - 1;
            assert(whole[i] == b[j]);
            assert(a.push(':').drop_last() =~= a);
            assert(whole.take(i) =~= a.push(':') + b.take(j));
            lemma_depth_join(a.push(':'), b.take(j));
        }
    }
    assert(colon_marks(whole) =~= ma.push(None) + mb);
    text::lemma_pieces_join(ma, mb);
    assert forall|i: int| 0 <= i < a.len() implies ma[i] == Some(a[i]) by {
        if a[i] == ':' {
            assert(depth(a.take(i)) != 0);
        }
    }
    text::lemma_pieces_whole(ma, a);
}

/// Of `cond:a:b` the true branch is `a`.
pub proof fn law_second_part_is_true_branch(cond: Seq<char>, a: Seq<char>, b: Seq<char>)
    requires
        one_part(cond),
        one_part(a),
    ensures
        true_branch(cond.push(':') + (a.push(':') + b)) == Some(a),
{
    lemma_top_parts_join(cond, a.push(':') + b);
    lemma_top_parts_join(a, b);
}

/// What [`two_bytes`] keeps are texts of the list.
proof fn lemma_two_bytes_members(ps: Seq<Seq<char>>, k: int)
    requires
        0 <= k < two_bytes(ps).len(),
    ensures
        ps.contains(two_bytes(ps)[k]),
        text::byte_len(two_bytes(ps)[k]) >= 2,
    decreases ps.len(),
{
    let d = ps.drop_last();
    if text::byte_len(ps.last()) >= 2 && k == two_bytes(d).len() {
        assert(ps[ps.len() - 1] == two_bytes(ps)[k]);
    } else {
        lemma_two_bytes_members(d, k);
        let j = choose|j: int| 0 <= j < d.len() && d[j] == two_bytes(d)[k];
        assert(ps[j] == two_bytes(ps)[k]);
    }
}

/// The literals of a prompt stand in its pattern, and none is empty.
pub proof fn law_literals_stand_in_pattern(prompt: Seq<char>, k: int)
    requires
        0 <= k < literals(prompt).len(),
    ensures
        text::occurs(pattern(prompt), literals(prompt)[k]),
        literals(prompt)[k].len() > 0,
{
    let class = CharClass::White;
    let s = pattern(prompt);
    let lit = literals(prompt)[k];
    let ws = text::words(s, class);
    lemma_two_bytes_members(ws, k);
    let i = choose|i: int| 0 <= i < ws.len() && ws[i] == lit;
    text::lemma_nonempty_members(text::split(s, class), i);
    let ps = text::split(s, class);
    let j = choose|j: int| 0 <= j < ps.len() && ps[j] == ws[i];
    text::lemma_split_occurs(s, class, j);
}

/// Every line in which the pattern of a prompt stands is known as a line of that prompt, if the
/// pattern has any literal.
pub proof fn law_drawn_line_is_known(prompt: Seq<char>, line: Seq<char>)
    requires
        literals(prompt).len() > 0,
        text::occurs(line, pattern(prompt)),
    ensures
        prompt_line(line, literals(prompt)),
{
    let lits = literals(prompt);
    assert forall|k: int| 0 <= k < lits.len() implies text::occurs(line, #[trigger] lits[k]) by {
        law_literals_stand_in_pattern(prompt, k);
        text::lemma_occurs_within(line, pattern(prompt), lits[k]);
    }
}

/// The command on a prompt line follows every literal: no literal ends behind its start, and where
/// a literal occurs, one ends right there.
pub proof fn law_command_follows_literals(line: Seq<char>, lits: Seq<Seq<char>>)
    ensures
        0 <= last_end(line, lits) <= line.len(),
        forall|k: int, i: int|
            0 <= k < lits.len() && #[trigger] text::occurs_at(line, lits[k], i) ==> i
                + lits[k].len() <= last_end(line, lits),
        last_end(line, lits) > 0 ==> exists|k: int|
            0 <= k < lits.len() && text::ends(
                line.take(last_end(line, lits)),
                #[trigger] lits[k],
            ),
    decreases lits.len(),
{
    if lits.len() > 0 {
        let d = lits.drop_last();
        let l = lits.last();
        let e = last_end(line, lits);
        law_command_follows_literals(line, d);
        text::lemma_last_occurrence(line, l);
        assert forall|k: int, i: int|
            0 <= k < lits.len() && #[trigger] text::occurs_at(line, lits[k], i) implies i
            + lits[k].len() <= e by {
            if k < d.len() {
                assert(text::occurs_at(line, d[k], i));
            }
        }
        if e > 0 {
            if e == last_end(line, d) {
                let k = choose|k: int|
                    0 <= k < d.len() && text::ends(line.take(e), #[trigger] d[k]);
                assert(text::ends(line.take(e), lits[k]));
            } else {
                let p = text::last_occurrence(line, l)->0;
                assert(line.take(e).subrange(p, e) =~= line.subrange(p, p + l.len()));
                assert(text::ends(line.take(e), lits[lits.len() - 1]));
            }
        }
    }
}

/// A target is not cut by what cannot be in it.
proof fn lemma_target_in(target: Seq<char>)
    requires
        target.len() > 0,
        forall|i: int| 0 <= i < target.len() ==> !CharClass::CommandStop.has(#[trigger] target[i]),
    ensures
        target_in(target) == target,
{
    let class = CharClass::White;
    assert(!CharClass::CommandStop.has(target[0]));
    text::lemma_leading(target, class, 0);
    assert(text::trim_start(target, class) =~= target);
    assert(!CharClass::CommandStop.has(target[target.len() - 1]));
    text::lemma_trailing(target, class, 0);
    assert(text::trim_end(target, class) =~= target);
    text::lemma_until(target, CharClass::CommandStop, target.len() as int);
    assert(target.take(target.len() as int) =~= target);
}

/// No mark stands behind the last one.
proof fn lemma_no_later_mark(before: Seq<char>, target: Seq<char>, i: int)
    requires
        forall|k: int| 0 <= k < target.len() ==> !CharClass::CommandStop.has(#[trigger] target[k]),
        before.len() < i,
    ensures
        !text::occurs_at(before + cd_mark() + target, cd_mark(), i),
{
    let line = before + cd_mark() + target;
    let n = before.len() as int;
    if text::occurs_at(line, cd_mark(), i) {
        let sub = line.subrange(i, i + 4);
        assert(sub == cd_mark());
        assert(sub[0] == line[i]);
        assert(sub[3] == line[i + 3]);
        if i < n + 4 {
            assert(line[i] == cd_mark()[i - n]);
            assert(i == n + 3);
        }
        assert(line[i + 3] == target[i + 3 - n - 4]);
    }
}

/// The target behind the last `cd` of a line is found, whatever comes before it: for a target
/// without white space, `|` and `;`.
pub proof fn law_last_cd_is_found(before: Seq<char>, target: Seq<char>)
    requires
        target.len() > 0,
        forall|i: int| 0 <= i < target.len() ==> !CharClass::CommandStop.has(#[trigger] target[i]),
    ensures
        cd_target(before + cd_mark() + target) == Some(target),
{
    let line = before + cd_mark() + target;
    let n = before.len() as int;
    assert(line.subrange(n, n + 4) =~= cd_mark());
    text::lemma_last_occurrence(line, cd_mark());
    match text::last_occurrence(line, cd_mark()) {
        Some(p) => {
            if n < p {
                lemma_no_later_mark(before, target, p);
            }
            assert(!(p < n)) by {
                if p < n {
                    assert(!text::occurs_at(line, cd_mark(), n));
                }
            }
        },
        None => {
            assert(!text::occurs_at(line, cd_mark(), n));
        },
    }
    assert(line.skip(n + 4) =~= target);
    lemma_target_in(target);
}

// ---------------------------------------------------------------------------------------------
// What the operations give: parentheses
// ---------------------------------------------------------------------------------------------

/// The parentheses that a text opens, less those that it closes.
pub open spec fn nest(s: Seq<char>) -> int
    decreases s.len(),
{
    if s.len() == 0 {
        0
    } else {
        nest(s.skip(1)) + if s[0] == '(' {
            1int
        } else if s[0] == ')' {
            -1int
        } else {
            0int
        }
    }
}

/// Whether a text nowhere closes more parentheses than it has opened.
pub open spec fn stays_open(s: Seq<char>) -> bool {
    forall|k: int| 0 <= k <= s.len() ==> nest(#[trigger] s.take(k)) >= 0
}

/// What opens and closes as many parentheses, and closes none that it has not opened.
pub open spec fn balanced(s: Seq<char>) -> bool {
    stays_open(s) && nest(s) == 0
}

proof fn lemma_content_len_open(s: Seq<char>, depth: nat)
    requires
        depth >= 1,
        forall|k: int| 0 <= k <= s.len() ==> nest(#[trigger] s.take(k)) > -depth,
    ensures
        content_len(s, depth) == s.len(),
    decreases s.len(),
{
    if s.len() > 0 {
        let t = s.skip(1);
        let next: nat = if s[0] == '(' {
            depth + 1
        } else if s[0] == ')' {
            (depth - 1) as nat
        } else {
            depth
        };
        assert(nest(s.take(1)) > -depth);
        assert(nest(s.take(1).skip(1)) == 0);
        assert(s.take(1)[0] == s[0]);
        assert forall|k: int| 0 <= k <= t.len() implies nest(#[trigger] t.take(k)) > -next by {
            let u = s.take(k + 1);
            assert(u.skip(1) =~= t.take(k));
            assert(u[0] == s[0]);
        }
        lemma_content_len_open(t, next);
    }
}

proof fn lemma_content_len_closed(x: Seq<char>, rest: Seq<char>, depth: nat)
    requires
        depth >= 1,
        forall|k: int| 0 <= k <= x.len() ==> nest(#[trigger] x.take(k)) > -depth,
        nest(x) == 1 - depth,
    ensures
        content_len(x.push(')') + rest, depth) == x.len(),
    decreases x.len(),
{
    let s = x.push(')') + rest;
    if x.len() == 0 {
        assert(s[0] == ')');
    } else {
        let t = x.skip(1);
        let next: nat = if x[0] == '(' {
            depth + 1
        } else if x[0] == ')' {
            (depth - 1) as nat
        } else {
            depth
        };
        assert(s[0] == x[0]);
        assert(s.skip(1) =~= t.push(')') + rest);
        assert(nest(x.take(1)) > -depth);
        assert(nest(x.take(1).skip(1)) == 0);
        assert(x.take(1)[0] == x[0]);
        assert forall|k: int| 0 <= k <= t.len() implies nest(#[trigger] t.take(k)) > -next by {
            let u = x.take(k + 1);
            assert(u.skip(1) =~= t.take(k));
            assert(u[0] == x[0]);
        }
        lemma_content_len_closed(t, rest, next);
    }
}

/// What stands in parentheses ends at the parenthesis that closes them: what is balanced is passed
/// over, and where nothing closes them all is inside.
pub proof fn law_parentheses_enclose_what_is_balanced(x: Seq<char>, rest: Seq<char>)
    ensures
        balanced(x) ==> paren_content(x + seq![')'] + rest) == x && paren_end(
            x + seq![')'] + rest,
        ) == x.len() + 1,
        stays_open(x) ==> paren_content(x) == x && paren_end(x) == x.len(),
{
    let s = x.push(')') + rest;
    assert(x + seq![')'] + rest =~= s);
    if balanced(x) {
        lemma_content_len_closed(x, rest, 1);
        assert(s.take(x.len() as int) =~= x);
    }
    if stays_open(x) {
        lemma_content_len_open(x, 1);
        assert(x.take(x.len() as int) =~= x);
    }
}

proof fn lemma_nest_push(s: Seq<char>, c: char)
    ensures
        nest(s.push(c)) == nest(s) + (if c == '(' {
            1int
        } else if c == ')' {
            -1int
        } else {
            0int
        }),
    decreases s.len(),
{
    let t = s.push(c);
    assert(nest(Seq::<char>::empty()) == 0);
    if s.len() == 0 {
        assert(t.skip(1) =~= Seq::<char>::empty());
        assert(t[0] == c);
    } else {
        assert(t.skip(1) =~= s.skip(1).push(c));
        assert(t[0] == s[0]);
        lemma_nest_push(s.skip(1), c);
    }
}

/// The parentheses open at the end of a text are the most that any of its ends leaves open.
pub proof fn law_depth_is_what_stays_open(s: Seq<char>)
    ensures
        forall|k: int| 0 <= k <= s.len() ==> nest(#[trigger] s.skip(k)) <= depth(s),
        exists|k: int| 0 <= k <= s.len() && nest(#[trigger] s.skip(k)) == depth(s),
    decreases s.len(),
{
    let none = Seq::<char>::empty();
    assert(s.skip(s.len() as int) =~= none);
    assert(nest(none) == 0);
    if s.len() > 0 {
        let d = s.drop_last();
        let c = s.last();
        law_depth_is_what_stays_open(d);
        assert forall|k: int| 0 <= k <= d.len() implies nest(#[trigger] s.skip(k)) == nest(
            d.skip(k),
        ) + (if c == '(' {
            1int
        } else if c == ')' {
            -1int
        } else {
            0int
        }) by {
            assert(s.skip(k) =~= d.skip(k).push(c));
            lemma_nest_push(d.skip(k), c);
        }
        assert forall|k: int| 0 <= k <= s.len() implies nest(#[trigger] s.skip(k)) <= depth(s) by {
            if k <= d.len() {
                assert(nest(d.skip(k)) <= depth(d));
            }
        }
        let k = choose|k: int| 0 <= k <= d.len() && nest(#[trigger] d.skip(k)) == depth(d);
        if c == ')' && depth(d) == 0 {
            assert(nest(s.skip(s.len() as int)) == depth(s));
        } else {
            assert(nest(s.skip(k)) == depth(s));
        }
    } else {
        assert(nest(s.skip(0)) == depth(s));
    }
}

/// A text is divided at its first colon outside all parentheses, and then behind it.
pub proof fn law_colons_divide_outside_parentheses(s: Seq<char>, i: int)
    ensures
        (forall|k: int| 0 <= k < s.len() && #[trigger] s[k] == ':' ==> depth(s.take(k)) != 0)
            ==> top_parts(s) == seq![s],
        0 <= i < s.len() && s[i] == ':' && depth(s.take(i)) == 0 && (forall|k: int|
            0 <= k < i && #[trigger] s[k] == ':' ==> depth(s.take(k)) != 0) ==> top_parts(s)
            == seq![s.take(i)] + top_parts(s.skip(i + 1)),
{
    if forall|k: int| 0 <= k < s.len() && #[trigger] s[k] == ':' ==> depth(s.take(k)) != 0 {
        assert forall|k: int| 0 <= k < s.len() implies colon_marks(s)[k] == Some(s[k]) by {
            if s[k] == ':' {
                assert(depth(s.take(k)) != 0);
            }
        }
        text::lemma_pieces_whole(colon_marks(s), s);
    }
    if 0 <= i < s.len() && s[i] == ':' && depth(s.take(i)) == 0 && (forall|k: int|
        0 <= k < i && #[trigger] s[k] == ':' ==> depth(s.take(k)) != 0) {
        let a = s.take(i);
        assert forall|k: int| 0 <= k < a.len() && #[trigger] a[k] == ':' implies depth(a.take(k))
            != 0 by {
            assert(a[k] == s[k]);
            assert(a.take(k) =~= s.take(k));
        }
        lemma_top_parts_join(a, s.skip(i + 1));
        assert(s =~= a.push(':') + s.skip(i + 1));
    }
}

// ---------------------------------------------------------------------------------------------
// What the operations give: the format string
// ---------------------------------------------------------------------------------------------

/// A character that opens neither a code nor a substitution is drawn, and the rest as if it stood
/// alone.
pub proof fn law_character_is_drawn(c: char, rest: Seq<char>)
    ensures
        expand(Seq::<char>::empty()) == Seq::<char>::empty(),
        c != '%' && !(c == '$' && rest.len() > 0 && rest[0] == '(') ==> expand(seq![c] + rest)
            == seq![c] + expand(rest),
{
    let s = seq![c] + rest;
    assert(s[0] == c);
    assert(s.skip(1) =~= rest);
    if rest.len() > 0 {
        assert(s[1] == rest[0]);
    }
}

/// A code of `%` and one character leaves nothing, and so does a `%` at the end.
pub proof fn law_code_vanishes(c: char, rest: Seq<char>)
    ensures
        expand(seq!['%']) == Seq::<char>::empty(),
        c != '{' && c != '(' && !(c == '1' && rest.len() > 0 && rest[0] == '{') ==> expand(
            seq!['%', c] + rest,
        ) == expand(rest),
{
    let s = seq!['%', c] + rest;
    assert(seq!['%'][0] == '%');
    assert(s[0] == '%' && s[1] == c);
    assert(s.skip(2) =~= rest);
    if rest.len() > 0 {
        assert(s[2] == rest[0]);
    }
}

/// A colour group without its `%}` ends at its first `%` and the character behind it, and where it
/// has none, at the end.
pub proof fn law_open_group_ends_at_first_code(x: Seq<char>, c: char, rest: Seq<char>)
    requires
        forall|i: int| 0 <= i < x.len() ==> #[trigger] x[i] != '%',
    ensures
        expand(seq!['%', '{'] + x) == Seq::<char>::empty(),
        expand(seq!['%', '{'] + x + seq!['%']) == Seq::<char>::empty(),
        c != '}' && !(c == '%' && rest.len() > 0 && rest[0] == '}') && (forall|i: int|
            0 <= i < rest.len() - 1 && #[trigger] rest[i] == '%' ==> rest[i + 1] != '}') ==> expand(
            seq!['%', '{'] + x + seq!['%', c] + rest,
        ) == expand(rest),
{
    let class = CharClass::Percent;
    let n = x.len() as int;
    let open = seq!['%', '{'];
    let none = Seq::<char>::empty();
    assert(expand(none) =~= none);
    let s1 = open + x;
    assert(s1[0] == '%' && s1[1] == '{');
    assert(s1.skip(2) =~= x);
    lemma_group_mark(x);
    text::lemma_until(x, class, n);
    assert(s1.skip(2 + n) =~= none);
    let y = x + seq!['%'];
    let s2 = open + x + seq!['%'];
    assert(s2[0] == '%' && s2[1] == '{');
    assert(s2.skip(2) =~= y);
    assert(y[n] == '%');
    lemma_group_mark(y);
    assert(group_mark(y) is None) by {
        match group_mark(y) {
            Some(i) => {
                assert(y[i] == '%');
                if i < n {
                    assert(y[i] == x[i]);
                }
            },
            None => {},
        }
    }
    text::lemma_until(y, class, n);
    assert(s2.skip(2 + n + 1) =~= none);
    if c != '}' && !(c == '%' && rest.len() > 0 && rest[0] == '}') && (forall|i: int|
        0 <= i < rest.len() - 1 && #[trigger] rest[i] == '%' ==> rest[i + 1] != '}') {
        let z = x + seq!['%', c] + rest;
        let s3 = open + x + seq!['%', c] + rest;
        assert(s3[0] == '%' && s3[1] == '{');
        assert(s3.skip(2) =~= z);
        assert(z[n] == '%' && z[n + 1] == c);
        lemma_group_mark(z);
        assert(group_mark(z) is None) by {
            match group_mark(z) {
                Some(i) => {
                    if i < n {
                        assert(z[i] == x[i]);
                    } else if i == n + 1 {
                        assert(z[n + 2] == rest[0]);
                    } else if i > n + 1 {
                        assert(z[i] == rest[i - n - 2]);
                        assert(z[i + 1] == rest[i - n - 1]);
                    }
                },
                None => {},
            }
        }
        assert(forall|i: int| 0 <= i < n ==> z[i] == x[i]);
        text::lemma_until(z, class, n);
        assert(s3.skip(2 + n + 2) =~= rest);
    }
}

/// A literal block is drawn up to its first `%`, which is taken off with the character behind it.
pub proof fn law_literal_block_ends_at_percent(x: Seq<char>, c: char, rest: Seq<char>)
    requires
        forall|i: int| 0 <= i < x.len() ==> #[trigger] x[i] != '%',
    ensures
        expand(seq!['%', '1', '{'] + x) == x,
        expand(seq!['%', '1', '{'] + x + seq!['%']) == x,
        expand(seq!['%', '1', '{'] + x + seq!['%', c] + rest) == x + expand(rest),
{
    let class = CharClass::Percent;
    let n = x.len() as int;
    let open = seq!['%', '1', '{'];
    let none = Seq::<char>::empty();
    assert(expand(none) =~= none);
    let s1 = open + x;
    assert(s1[0] == '%' && s1[1] == '1' && s1[2] == '{');
    assert(s1.skip(3) =~= x);
    text::lemma_until(x, class, n);
    assert(x.take(n) =~= x);
    assert(s1.skip(3 + n) =~= none);
    assert(x + none =~= x);
    let y = x + seq!['%'];
    let s2 = open + x + seq!['%'];
    assert(s2[0] == '%' && s2[1] == '1' && s2[2] == '{');
    assert(s2.skip(3) =~= y);
    assert(y[n] == '%');
    text::lemma_until(y, class, n);
    assert(y.take(n) =~= x);
    assert(s2.skip(3 + n + 1) =~= none);
    let z = x + seq!['%', c] + rest;
    let s3 = open + x + seq!['%', c] + rest;
    assert(s3[0] == '%' && s3[1] == '1' && s3[2] == '{');
    assert(s3.skip(3) =~= z);
    assert(z[n] == '%');
    assert(forall|i: int| 0 <= i < n ==> z[i] == x[i]);
    text::lemma_until(z, class, n);
    assert(z.take(n) =~= x);
    assert(s3.skip(3 + n + 2) =~= rest);
}

/// A substitution leaves nothing: up to the parenthesis that closes it, or to the end.
pub proof fn law_substitution_leaves_nothing(x: Seq<char>, rest: Seq<char>)
    ensures
        balanced(x) ==> expand(seq!['$', '('] + x + seq![')'] + rest) == expand(rest),
        stays_open(x) ==> expand(seq!['$', '('] + x) == Seq::<char>::empty(),
{
    let none = Seq::<char>::empty();
    assert(expand(none) =~= none);
    law_parentheses_enclose_what_is_balanced(x, rest);
    let s = seq!['$', '('] + x + seq![')'] + rest;
    assert(s[0] == '$' && s[1] == '(');
    assert(s.skip(2) =~= x + seq![')'] + rest);
    assert(s.skip(3 + x.len() as int) =~= rest);
    let t = seq!['$', '('] + x;
    assert(t[0] == '$' && t[1] == '(');
    assert(t.skip(2) =~= x);
    assert(t.skip(2 + x.len() as int) =~= none);
}

/// A conditional leaves the pattern of the second of its parts, and nothing where it has no second
/// one; it goes up to the parenthesis that closes it, or to the end.
pub proof fn law_conditional_leaves_second_part(x: Seq<char>, rest: Seq<char>)
    ensures
        ({
            let shown = if top_parts(x).len() >= 2 {
                pattern(top_parts(x)[1])
            } else {
                Seq::<char>::empty()
            };
            &&& balanced(x) ==> expand(seq!['%', '('] + x + seq![')'] + rest) == shown + expand(rest)
            &&& stays_open(x) ==> expand(seq!['%', '('] + x) == shown
        }),
{
    let none = Seq::<char>::empty();
    assert(expand(none) =~= none);
    law_parentheses_enclose_what_is_balanced(x, rest);
    let s = seq!['%', '('] + x + seq![')'] + rest;
    assert(s[0] == '%' && s[1] == '(');
    assert(s.skip(2) =~= x + seq![')'] + rest);
    assert(s.skip(3 + x.len() as int) =~= rest);
    let t = seq!['%', '('] + x;
    assert(t[0] == '%' && t[1] == '(');
    assert(t.skip(2) =~= x);
    assert(t.skip(2 + x.len() as int) =~= none);
    let shown = if top_parts(x).len() >= 2 {
        pattern(top_parts(x)[1])
    } else {
        none
    };
    if stays_open(x) {
        assert(shown + expand(none) =~= shown);
    }
}

/// The pattern of a format is what it draws, without the white space around it.
pub proof fn law_pattern_is_drawn_text_trimmed(prompt: Seq<char>)
    ensures
        exists|a: Seq<char>, b: Seq<char>|
            expand(prompt) == #[trigger] (a + pattern(prompt) + b) && (forall|i: int|
                0 <= i < a.len() ==> text::white_space(#[trigger] a[i])) && (forall|i: int|
                0 <= i < b.len() ==> text::white_space(#[trigger] b[i])),
        pattern(prompt).len() > 0 ==> !text::white_space(pattern(prompt)[0]) && !text::white_space(
            pattern(prompt).last(),
        ),
{
    lemma_trim_white(expand(prompt));
}

proof fn lemma_trim_white(s: Seq<char>)
    ensures
        ({
            let t = text::trim(s, CharClass::White);
            &&& exists|a: Seq<char>, b: Seq<char>|
                s == #[trigger] (a + t + b) && (forall|i: int|
                    0 <= i < a.len() ==> text::white_space(#[trigger] a[i])) && (forall|i: int|
                    0 <= i < b.len() ==> text::white_space(#[trigger] b[i]))
            &&& t.len() > 0 ==> !text::white_space(t[0]) && !text::white_space(t.last())
        }),
{
    let class = CharClass::White;
    let t = text::trim(s, class);
    text::law_trim_leaves_the_middle(s, class);
    let (a, b) = choose|a: Seq<char>, b: Seq<char>|
        s == #[trigger] (a + t + b) && (forall|i: int|
            0 <= i < a.len() ==> class.has(#[trigger] a[i])) && (forall|i: int|
            0 <= i < b.len() ==> class.has(#[trigger] b[i]));
    assert forall|i: int| 0 <= i < a.len() implies text::white_space(#[trigger] a[i]) by {
        assert(class.has(a[i]));
    }
    assert forall|i: int| 0 <= i < b.len() implies text::white_space(#[trigger] b[i]) by {
        assert(class.has(b[i]));
    }
    assert(s == a + t + b);
}

proof fn lemma_two_bytes_filter(ps: Seq<Seq<char>>)
    ensures
        two_bytes(text::nonempty(ps)) == ps.filter(
            |w: Seq<char>| vstd::utf8::encode_utf8(w).len() >= 2,
        ),
    decreases ps.len(),
{
    reveal(Seq::filter);
    if ps.len() > 0 {
        let d = ps.drop_last();
        let w = ps.last();
        lemma_two_bytes_filter(d);
        if w.len() > 0 {
            assert(text::nonempty(ps).drop_last() =~= text::nonempty(d));
        } else {
            assert(w =~= Seq::<char>::empty());
            assert(vstd::utf8::encode_utf8(w).len() == 0);
        }
    }
}

/// The literals of a prompt are what stands between the white space of its pattern, as far as it
/// takes two bytes or more; in their order.
pub proof fn law_literals_are_words_of_two_bytes(prompt: Seq<char>)
    ensures
        literals(prompt) == text::split(pattern(prompt), CharClass::White).filter(
            |w: Seq<char>| vstd::utf8::encode_utf8(w).len() >= 2,
        ),
{
    lemma_two_bytes_filter(text::split(pattern(prompt), CharClass::White));
}

// ---------------------------------------------------------------------------------------------
// What the operations give: lines of a prompt
// ---------------------------------------------------------------------------------------------

/// Whether a line is a text with something before and behind it.
pub open spec fn stands_in(line: Seq<char>, x: Seq<char>) -> bool {
    exists|a: Seq<char>, b: Seq<char>| line == #[trigger] (a + x + b)
}

/// A line shows a prompt just where there are literals and each of them stands in it.
pub proof fn law_prompt_line_holds_all_literals(line: Seq<char>, lits: Seq<Seq<char>>)
    ensures
        prompt_line(line, lits) <==> lits.len() > 0 && forall|i: int|
            0 <= i < lits.len() ==> stands_in(line, #[trigger] lits[i]),
{
    assert forall|i: int| 0 <= i < lits.len() implies text::occurs(line, #[trigger] lits[i])
        == stands_in(line, lits[i]) by {
        text::law_occurs_between(line, lits[i]);
    }
}

/// The command on a prompt line is what follows the last literal, without the white space around
/// it.
pub proof fn law_command_is_rest_of_line(line: Seq<char>, lits: Seq<Seq<char>>)
    ensures
        exists|a: Seq<char>, b: Seq<char>|
            line.skip(last_end(line, lits)) == #[trigger] (a + command_in(line, lits) + b) && (
            forall|i: int| 0 <= i < a.len() ==> text::white_space(#[trigger] a[i])) && (forall|i: int|
                0 <= i < b.len() ==> text::white_space(#[trigger] b[i])),
        command_in(line, lits).len() > 0 ==> !text::white_space(command_in(line, lits)[0])
            && !text::white_space(command_in(line, lits).last()),
{
    lemma_trim_white(line.skip(last_end(line, lits)));
}

/// Whether a character ends the target of a `cd`.
pub open spec fn ends_target(c: char) -> bool {
    text::white_space(c) || c == '|' || c == ';'
}

/// The target of a `cd` is what follows the last ` cd `, past white space and up to white space, `|`
/// or `;`; where that is nothing, the line counts up to that ` cd `.
pub proof fn law_target_follows_last_cd(
    line: Seq<char>,
    mark: Seq<char>,
    p: int,
    white: Seq<char>,
    target: Seq<char>,
    tail: Seq<char>,
)
    requires
        mark == seq![' ', 'c', 'd', ' '],
        forall|i: int| 0 <= i < white.len() ==> text::white_space(#[trigger] white[i]),
        forall|i: int| 0 <= i < target.len() ==> !ends_target(#[trigger] target[i]),
    ensures
        (forall|i: int| !#[trigger] text::occurs_at(line, mark, i))
            ==> cd_target(line) is None,
        text::occurs_at(line, mark, p) && (forall|i: int|
            p < i ==> !#[trigger] text::occurs_at(line, mark, i)) && line.skip(
            p + 4,
        ) == white + target + tail && target.len() > 0 && (tail.len() > 0 ==> ends_target(tail[0]))
            ==> cd_target(line) == Some(target),
        text::occurs_at(line, mark, p) && (forall|i: int|
            p < i ==> !#[trigger] text::occurs_at(line, mark, i)) && line.skip(
            p + 4,
        ) == white + tail && (tail.len() > 0 ==> tail[0] == '|' || tail[0] == ';') ==> cd_target(
            line,
        ) == cd_target(line.take(p)),
{
    assert(mark =~= cd_mark());
    text::lemma_last_occurrence(line, mark);
    let rest = line.skip(p + 4);
    if text::occurs_at(line, mark, p) && (forall|i: int|
        p < i ==> !#[trigger] text::occurs_at(line, mark, i)) {
        assert(text::last_occurrence(line, mark) == Some(p));
        if rest == white + target + tail && target.len() > 0 && (tail.len() > 0 ==> ends_target(
            tail[0],
        )) {
            lemma_target_found(white, target, tail);
        }
        if rest == white + tail && (tail.len() > 0 ==> tail[0] == '|' || tail[0] == ';') {
            lemma_target_missing(white, tail);
        }
    }
}

proof fn lemma_target_found(white: Seq<char>, target: Seq<char>, tail: Seq<char>)
    requires
        forall|i: int| 0 <= i < white.len() ==> text::white_space(#[trigger] white[i]),
        forall|i: int| 0 <= i < target.len() ==> !ends_target(#[trigger] target[i]),
        target.len() > 0,
        tail.len() > 0 ==> ends_target(tail[0]),
    ensures
        target_in(white + target + tail) == target,
{
    let class = CharClass::White;
    let stop = CharClass::CommandStop;
    let s = white + target + tail;
    let n = white.len() as int;
    assert(s[n] == target[0]);
    assert(!ends_target(target[0]));
    assert(forall|i: int| 0 <= i < n ==> s[i] == white[i]);
    text::lemma_leading(s, class, n);
    let u = text::trim_start(s, class);
    assert(u =~= target + tail);
    text::lemma_trailing_run(u, class);
    let m = u.len() - text::trailing(u, class);
    assert(m >= target.len()) by {
        if m < target.len() {
            assert(class.has(u[target.len() - 1]));
            assert(u[target.len() - 1] == target[target.len() - 1]);
            assert(!ends_target(target[target.len() - 1]));
        }
    }
    let t = text::trim_end(u, class);
    assert forall|i: int| 0 <= i < target.len() implies !stop.has(t[i]) by {
        assert(t[i] == target[i]);
        assert(!ends_target(target[i]));
    }
    if target.len() < t.len() {
        assert(t[target.len() as int] == tail[0]);
    }
    text::lemma_until(t, stop, target.len() as int);
    assert(t.take(target.len() as int) =~= target);
}

proof fn lemma_target_missing(white: Seq<char>, tail: Seq<char>)
    requires
        forall|i: int| 0 <= i < white.len() ==> text::white_space(#[trigger] white[i]),
        tail.len() > 0 ==> tail[0] == '|' || tail[0] == ';',
    ensures
        target_in(white + tail).len() == 0,
{
    let class = CharClass::White;
    let stop = CharClass::CommandStop;
    let s = white + tail;
    let n = white.len() as int;
    assert(forall|i: int| 0 <= i < n ==> s[i] == white[i]);
    if tail.len() > 0 {
        assert(s[n] == tail[0]);
    }
    text::lemma_leading(s, class, n);
    let u = text::trim_start(s, class);
    assert(u =~= tail);
    text::lemma_trailing_run(u, class);
    let t = text::trim_end(u, class);
    if t.len() > 0 {
        assert(t[0] == tail[0]);
    }
    text::lemma_until(t, stop, 0);
}

/// The directory that a prompt line names is the word behind the first arrow, past spaces and up to
/// a space or `/`; without an arrow or without such a word it names none.
pub proof fn law_name_follows_first_arrow(
    before: Seq<char>,
    spaces: Seq<char>,
    name: Seq<char>,
    tail: Seq<char>,
)
    requires
        forall|i: int| 0 <= i < before.len() ==> #[trigger] before[i] != '\u{279c}',
        forall|i: int| 0 <= i < spaces.len() ==> #[trigger] spaces[i] == ' ',
        forall|i: int| 0 <= i < name.len() ==> #[trigger] name[i] != ' ' && name[i] != '/',
    ensures
        dirname_in(before) is None,
        name.len() > 0 && (tail.len() > 0 ==> tail[0] == ' ' || tail[0] == '/') ==> dirname_in(
            before + seq!['\u{279c}'] + spaces + name + tail,
        ) == Some(name),
        (tail.len() > 0 ==> tail[0] == '/') ==> dirname_in(
            before + seq!['\u{279c}'] + spaces + tail,
        ) is None,
{
    text::lemma_until(before, CharClass::Arrow, before.len() as int);
    if name.len() > 0 && (tail.len() > 0 ==> tail[0] == ' ' || tail[0] == '/') {
        let line = before + seq!['\u{279c}'] + spaces + name + tail;
        assert(name[0] != ' ');
        lemma_name_in(before, spaces, name + tail, line);
        let rest = name + tail;
        assert(forall|i: int| 0 <= i < name.len() ==> rest[i] == name[i]);
        if tail.len() > 0 {
            assert(rest[name.len() as int] == tail[0]);
        }
        text::lemma_until(rest, CharClass::NameStop, name.len() as int);
        assert(rest.take(name.len() as int) =~= name);
    }
    if tail.len() > 0 ==> tail[0] == '/' {
        let line = before + seq!['\u{279c}'] + spaces + tail;
        lemma_name_in(before, spaces, tail, line);
        text::lemma_until(tail, CharClass::NameStop, 0);
    }
}

proof fn lemma_name_in(before: Seq<char>, spaces: Seq<char>, rest: Seq<char>, line: Seq<char>)
    requires
        forall|i: int| 0 <= i < before.len() ==> #[trigger] before[i] != '\u{279c}',
        forall|i: int| 0 <= i < spaces.len() ==> #[trigger] spaces[i] == ' ',
        rest.len() > 0 ==> rest[0] != ' ',
        line =~= before + seq!['\u{279c}'] + spaces + rest,
    ensures
        text::until(line, CharClass::Arrow) == before.len() < line.len(),
        text::trim_start(line.skip(before.len() as int + 1), CharClass::Space) == rest,
{
    let n = before.len() as int;
    let m = spaces.len() as int;
    assert(line[n] == '\u{279c}');
    assert(forall|i: int| 0 <= i < n ==> line[i] == before[i]);
    text::lemma_until(line, CharClass::Arrow, n);
    let u = line.skip(n + 1);
    assert(u =~= spaces + rest);
    assert(forall|i: int| 0 <= i < m ==> u[i] == spaces[i]);
    if rest.len() > 0 {
        assert(u[m] == rest[0]);
    }
    text::lemma_leading(u, CharClass::Space, m);
    assert(u.skip(m) =~= rest);
}

} // verus!
