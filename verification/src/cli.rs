//! The command line: its options, the number of lines to read, and the log of commands.

use vstd::prelude::*;
use crate::text;
use crate::text::{chars_of, count_until, same, split_str, text_of, CharClass};

verus! {

// ---------------------------------------------------------------------------------------------
// Numbers
// ---------------------------------------------------------------------------------------------

/// The value of a run of decimal digits.
pub open spec fn value(ds: Seq<char>) -> nat
    decreases ds.len(),
{
    if ds.len() == 0 {
        0
    } else {
        10 * value(ds.drop_last()) + (ds.last() as u32 - '0' as u32) as nat
    }
}

/// Whether a text is a run of decimal digits.
pub open spec fn digits(ds: Seq<char>) -> bool {
    ds.len() > 0 && forall|i: int| 0 <= i < ds.len() ==> CharClass::Digit.has(#[trigger] ds[i])
}

/// The digits of a number: what follows a `+`, where there is one.
pub open spec fn unsigned(s: Seq<char>) -> Seq<char> {
    if s.len() > 0 && s[0] == '+' {
        s.skip(1)
    } else {
        s
    }
}

/// The number that a text denotes, if it denotes one that fits in a machine word.
pub open spec fn number(s: Seq<char>) -> Option<nat> {
    if digits(unsigned(s)) && value(unsigned(s)) <= usize::MAX {
        Some(value(unsigned(s)))
    } else {
        None
    }
}

/// A run of digits is worth no less than its front.
proof fn lemma_value_front(ds: Seq<char>, n: int)
    requires
        0 <= n <= ds.len(),
        forall|i: int| 0 <= i < ds.len() ==> CharClass::Digit.has(#[trigger] ds[i]),
    ensures
        value(ds.take(n)) <= value(ds),
    decreases ds.len(),
{
    if n < ds.len() {
        let d = ds.drop_last();
        assert(d.take(n) =~= ds.take(n));
        assert forall|i: int| 0 <= i < d.len() implies CharClass::Digit.has(#[trigger] d[i]) by {
            assert(d[i] == ds[i]);
        }
        lemma_value_front(d, n);
    } else {
        assert(ds.take(n) =~= ds);
    }
}

/// Reads a number.
pub fn parse_number(s: &str) -> (r: Option<usize>)
    ensures
        match r {
            Some(n) => number(s@) == Some(n as nat),
            None => number(s@) is None,
        },
{
    let cs: Vec<char> = chars_of(s);
    let lo: usize = if cs.len() > 0 && cs[0] == '+' {
        1
    } else {
        0
    };
    let ghost ds = unsigned(s@);
    assert(ds =~= cs@.skip(lo as int));
    if lo == cs.len() {
        return None;
    }
    let mut total: usize = 0;
    let mut i: usize = lo;
    assert(ds.take(0) =~= Seq::<char>::empty());
    while i < cs.len()
        invariant
            lo <= i <= cs@.len(),
            ds == unsigned(s@),
            ds == cs@.skip(lo as int),
            total == value(ds.take(i - lo)),
            forall|k: int| 0 <= k < i - lo ==> CharClass::Digit.has(#[trigger] ds[k]),
        decreases cs@.len() - i,
    {
        let c: char = cs[i];
        assert(ds[i - lo] == c);
        if !CharClass::Digit.test(c) {
            return None;
        }
        let d: usize = (c as u32 - '0' as u32) as usize;
        let ghost next = ds.take(i - lo + 1);
        assert(next.drop_last() =~= ds.take(i - lo));
        assert(next.last() == c);
        assert(value(next) == 10 * total + d);
        if total > (usize::MAX - d) / 10 {
            proof {
                assert(10 * total + d > usize::MAX);
                if digits(ds) {
                    lemma_value_front(ds, i - lo + 1);
                }
            }
            return None;
        }
        total = 10 * total + d;
        i = i + 1;
    }
    assert(ds.take(i - lo) =~= ds);
    assert(digits(ds));
    Some(total)
}

// ---------------------------------------------------------------------------------------------
// Options
// ---------------------------------------------------------------------------------------------

/// What the command line asks for.
pub struct Args {
    /// The present directory.
    pub cwd: String,
    /// The format of the prompt.
    pub prompt: Option<String>,
    /// The file with the log of commands.
    pub cwd_log: Option<String>,
    /// The number of lines to read, counted from the end.
    pub lines: Option<usize>,
    /// Whether to write a debug log.
    pub debug: bool,
}

/// What the command line asks for, as plain values.
pub struct Options {
    pub cwd: Seq<char>,
    pub prompt: Option<Seq<char>>,
    pub cwd_log: Option<Seq<char>>,
    pub lines: Option<nat>,
    pub debug: bool,
}

/// The text in an optional string.
pub open spec fn text_in(s: Option<String>) -> Option<Seq<char>> {
    match s {
        Some(t) => Some(t@),
        None => None,
    }
}

impl View for Args {
    type V = Options;

    open spec fn view(&self) -> Options {
        Options {
            cwd: self.cwd@,
            prompt: text_in(self.prompt),
            cwd_log: text_in(self.cwd_log),
            lines: match self.lines {
                Some(n) => Some(n as nat),
                None => None,
            },
            debug: self.debug,
        }
    }
}

/// The options that take a value.
#[derive(Clone, Copy)]
pub enum Setting {
    /// `--cwd`
    Cwd,
    /// `--prompt`
    Prompt,
    /// `--cwd-log`
    CwdLog,
    /// `--lines`
    Lines,
}

/// The option that a word names.
pub open spec fn setting(word: Seq<char>) -> Option<Setting> {
    if word == "--cwd"@ {
        Some(Setting::Cwd)
    } else if word == "--prompt"@ {
        Some(Setting::Prompt)
    } else if word == "--cwd-log"@ {
        Some(Setting::CwdLog)
    } else if word == "--lines"@ {
        Some(Setting::Lines)
    } else {
        None
    }
}

/// The options with one of them set.
pub open spec fn with_setting(o: Options, s: Setting, v: Seq<char>) -> Options {
    match s {
        Setting::Cwd => Options { cwd: v, ..o },
        Setting::Prompt => Options { prompt: Some(v), ..o },
        Setting::CwdLog => Options { cwd_log: Some(v), ..o },
        Setting::Lines => Options { lines: number(v), ..o },
    }
}

/// The options after the words: of an option given twice the later one counts, one without its
/// value and words that name no option are passed over.
pub open spec fn with_words(o: Options, words: Seq<Seq<char>>) -> Options
    decreases words.len(),
{
    if words.len() == 0 {
        o
    } else {
        match setting(words[0]) {
            Some(s) => if words.len() == 1 {
                o
            } else {
                with_words(with_setting(o, s, words[1]), words.skip(2))
            },
            None => if words[0] == "--debug"@ {
                with_words(Options { debug: true, ..o }, words.skip(1))
            } else {
                with_words(o, words.skip(1))
            },
        }
    }
}

/// The options before any word.
pub open spec fn start(current_dir: Seq<char>) -> Options {
    Options { cwd: current_dir, prompt: None, cwd_log: None, lines: None, debug: false }
}

/// The options of a command line. The environment can ask for the debug log too.
pub open spec fn options(words: Seq<Seq<char>>, current_dir: Seq<char>, debug_env: bool) -> Options {
    let o = with_words(start(current_dir), words);
    Options { debug: o.debug || debug_env, ..o }
}

/// Finds the option that a word names.
fn find_setting(word: &str) -> (r: Option<Setting>)
    ensures
        r == setting(word@),
{
    if same(word, "--cwd") {
        Some(Setting::Cwd)
    } else if same(word, "--prompt") {
        Some(Setting::Prompt)
    } else if same(word, "--cwd-log") {
        Some(Setting::CwdLog)
    } else if same(word, "--lines") {
        Some(Setting::Lines)
    } else {
        None
    }
}

/// Sets one of the options.
fn set(args: &mut Args, s: Setting, v: &str)
    ensures
        final(args)@ == with_setting(old(args)@, s, v@),
{
    match s {
        Setting::Cwd => {
            args.cwd = v.to_owned();
        },
        Setting::Prompt => {
            args.prompt = Some(v.to_owned());
        },
        Setting::CwdLog => {
            args.cwd_log = Some(v.to_owned());
        },
        Setting::Lines => {
            args.lines = parse_number(v);
        },
    }
}

/// Reads the words of the command line, the name of the program left out.
pub fn parse_args(words: &Vec<String>, current_dir: String, debug_env: bool) -> (r: Args)
    ensures
        r@ == options(words.deep_view(), current_dir@, debug_env),
{
    let ghost all = words.deep_view();
    let ghost first = start(current_dir@);
    let mut args = Args { cwd: current_dir, prompt: None, cwd_log: None, lines: None, debug: false };
    let mut i: usize = 0;
    assert(all.skip(0) =~= all);
    while i < words.len()
        invariant
            i <= words@.len(),
            all == words.deep_view(),
            with_words(first, all) == with_words(args@, all.skip(i as int)),
        decreases words@.len() - i,
    {
        let ghost rest = all.skip(i as int);
        assert(rest[0] == words@[i as int]@);
        match find_setting(words[i].as_str()) {
            Some(s) => {
                if words.len() - i < 2 {
                    i = words.len();
                    assert(all.skip(i as int) =~= Seq::<Seq<char>>::empty());
                } else {
                    assert(rest[1] == words@[i + 1]@);
                    assert(rest.skip(2) =~= all.skip(i + 2));
                    set(&mut args, s, words[i + 1].as_str());
                    i = i + 2;
                }
            },
            None => {
                assert(rest.skip(1) =~= all.skip(i + 1));
                if same(words[i].as_str(), "--debug") {
                    args.debug = true;
                }
                i = i + 1;
            },
        }
    }
    if debug_env {
        args.debug = true;
    }
    args
}

// ---------------------------------------------------------------------------------------------
// Input
// ---------------------------------------------------------------------------------------------

/// The last `n` lines; all of them where there is no limit.
pub open spec fn last_lines(lines: Seq<Seq<char>>, n: Option<nat>) -> Seq<Seq<char>> {
    match n {
        Some(k) => if k < lines.len() {
            lines.skip(lines.len() - k)
        } else {
            lines
        },
        None => lines,
    }
}

/// Keeps the last `n` lines.
pub fn keep_last(lines: Vec<String>, n: Option<usize>) -> (r: Vec<String>)
    ensures
        r.deep_view() == last_lines(
            lines.deep_view(),
            match n {
                Some(k) => Some(k as nat),
                None => None,
            },
        ),
{
    let ghost all = lines.deep_view();
    let mut lines = lines;
    match n {
        Some(k) => {
            if k < lines.len() {
                let start: usize = lines.len() - k;
                let tail: Vec<String> = lines.split_off(start);
                assert(tail.deep_view() =~= all.skip(start as int));
                return tail;
            }
        },
        None => {},
    }
    lines
}

/// A line without the carriage return that ends it.
pub open spec fn without_return(line: Seq<char>) -> Seq<char> {
    if line.len() > 0 && line.last() == '\r' {
        line.drop_last()
    } else {
        line
    }
}

/// The lines of a text, where each ends in a line feed or in a carriage return and a line feed. The
/// end of the last line may be missing.
pub open spec fn lines_in(s: Seq<char>) -> Seq<Seq<char>> {
    let ps = text::split(s, CharClass::Newline);
    let ended = Seq::new((ps.len() - 1) as nat, |i: int| without_return(ps[i]));
    if ps.last().len() > 0 {
        ended.push(ps.last())
    } else {
        ended
    }
}

/// The directory and the command that a line of the log holds: what stands before its first tab
/// and what follows.
pub open spec fn entry_in(line: Seq<char>) -> Option<(Seq<char>, Seq<char>)> {
    let k = text::until(line, CharClass::Tab);
    if k < line.len() {
        Some((line.take(k), line.skip(k + 1)))
    } else {
        None
    }
}

/// The entries that the lines of a log hold.
pub open spec fn entries_in(lines: Seq<Seq<char>>) -> Seq<(Seq<char>, Seq<char>)>
    decreases lines.len(),
{
    if lines.len() == 0 {
        Seq::<(Seq<char>, Seq<char>)>::empty()
    } else {
        let d = entries_in(lines.drop_last());
        match entry_in(lines.last()) {
            Some(e) => d.push(e),
            None => d,
        }
    }
}

/// Divides a text into its lines.
pub fn lines_of(s: &str) -> (r: Vec<String>)
    ensures
        r.deep_view() == lines_in(s@),
{
    let ps: Vec<String> = split_str(s, CharClass::Newline);
    proof {
        text::lemma_pieces_len(text::cut(s@, CharClass::Newline));
        assert(ps.deep_view().len() == ps@.len());
    }
    let ghost all = ps.deep_view();
    let last: usize = ps.len() - 1;
    let mut out: Vec<String> = Vec::new();
    let mut i: usize = 0;
    while i < last
        invariant
            i <= last,
            last == ps@.len() - 1,
            all == ps.deep_view(),
            out@.len() == i,
            forall|k: int| 0 <= k < i ==> (#[trigger] out@[k])@ == without_return(all[k]),
        decreases last - i,
    {
        let cs: Vec<char> = chars_of(ps[i].as_str());
        assert(all[i as int] == cs@);
        if cs.len() > 0 && cs[cs.len() - 1] == '\r' {
            assert(cs@.subrange(0, cs@.len() - 1) =~= cs@.drop_last());
            out.push(text_of(&cs, 0, cs.len() - 1));
        } else {
            out.push(ps[i].clone());
        }
        i = i + 1;
    }
    let ghost ended = Seq::new((all.len() - 1) as nat, |i: int| without_return(all[i]));
    assert(out.deep_view() =~= ended);
    assert(all.last() == ps@[last as int]@);
    if !ps[last].as_str().is_empty() {
        out.push(ps[last].clone());
        assert(out.deep_view() =~= ended.push(all.last()));
    }
    out
}

/// Reads the log of commands: one entry a line, the directory and the command with a tab between
/// them. Lines without a tab are passed over.
pub fn parse_cwd_log(log: &str) -> (r: Vec<(String, String)>)
    ensures
        r.deep_view() == entries_in(lines_in(log@)),
{
    let lines: Vec<String> = lines_of(log);
    let ghost all = lines.deep_view();
    let mut out: Vec<(String, String)> = Vec::new();
    let mut i: usize = 0;
    assert(all.take(0) =~= Seq::<Seq<char>>::empty());
    assert(out.deep_view() =~= entries_in(all.take(0)));
    while i < lines.len()
        invariant
            i <= lines@.len(),
            all == lines.deep_view(),
            out.deep_view() == entries_in(all.take(i as int)),
        decreases lines@.len() - i,
    {
        let ghost before = out.deep_view();
        let ghost line = all[i as int];
        assert(all.take(i + 1).drop_last() =~= all.take(i as int));
        assert(all.take(i + 1).last() == line);
        let cs: Vec<char> = chars_of(lines[i].as_str());
        assert(cs@ == line);
        assert(cs@.subrange(0, cs@.len() as int) =~= line);
        let k: usize = count_until(&cs, 0, cs.len(), CharClass::Tab);
        if k < cs.len() {
            let cwd: String = text_of(&cs, 0, k);
            let cmd: String = text_of(&cs, k + 1, cs.len());
            assert(cwd@ =~= line.take(k as int));
            assert(cmd@ =~= line.skip(k + 1));
            let ghost e = (cwd@, cmd@);
            out.push((cwd, cmd));
            assert(out.deep_view() =~= before.push(e));
        }
        i = i + 1;
    }
    assert(all.take(i as int) =~= all);
    out
}

// ---------------------------------------------------------------------------------------------
// Laws
// ---------------------------------------------------------------------------------------------

/// The line that holds an entry.
pub open spec fn entry_line(e: (Seq<char>, Seq<char>)) -> Seq<char> {
    e.0.push('\t') + e.1
}

/// The log that holds the entries, one a line.
pub open spec fn written(es: Seq<(Seq<char>, Seq<char>)>) -> Seq<char>
    decreases es.len(),
{
    if es.len() == 0 {
        Seq::<char>::empty()
    } else {
        entry_line(es[0]).push('\n') + written(es.skip(1))
    }
}

/// Whether an entry can be written on a line: a directory without tab and line feed, and a command
/// without line feed that does not end in a carriage return.
pub open spec fn writable(e: (Seq<char>, Seq<char>)) -> bool {
    &&& forall|i: int| 0 <= i < e.0.len() ==> #[trigger] e.0[i] != '\t' && e.0[i] != '\n'
    &&& forall|i: int| 0 <= i < e.1.len() ==> #[trigger] e.1[i] != '\n'
    &&& e.1.len() > 0 ==> e.1.last() != '\r'
}

proof fn lemma_entry_line(e: (Seq<char>, Seq<char>))
    requires
        writable(e),
    ensures
        text::split(entry_line(e), CharClass::Newline) == seq![entry_line(e)],
        without_return(entry_line(e)) == entry_line(e),
        entry_in(entry_line(e)) == Some(e),
{
    let line = entry_line(e);
    let k = e.0.len() as int;
    assert forall|i: int| 0 <= i < line.len() implies !CharClass::Newline.has(#[trigger] line[i]) by {
        if i < k {
            assert(line[i] == e.0[i]);
        } else if i > k {
            assert(line[i] == e.1[i - k - 1]);
        }
    }
    text::lemma_split_whole(line, CharClass::Newline);
    if e.1.len() > 0 {
        assert(line.last() == e.1.last());
    } else {
        assert(line.last() == '\t');
    }
    assert forall|i: int| 0 <= i < k implies !CharClass::Tab.has(line[i]) by {
        assert(line[i] == e.0[i]);
    }
    assert(line[k] == '\t');
    text::lemma_until(line, CharClass::Tab, k);
    assert(line.take(k) =~= e.0);
    assert(line.skip(k + 1) =~= e.1);
}

proof fn lemma_written_pieces(es: Seq<(Seq<char>, Seq<char>)>)
    requires
        forall|i: int| 0 <= i < es.len() ==> writable(#[trigger] es[i]),
    ensures
        text::split(written(es), CharClass::Newline) == Seq::new(
            es.len(),
            |i: int| entry_line(es[i]),
        ).push(Seq::<char>::empty()),
    decreases es.len(),
{
    let class = CharClass::Newline;
    let lines = Seq::new(es.len(), |i: int| entry_line(es[i]));
    let none = Seq::<char>::empty();
    if es.len() == 0 {
        text::lemma_split_whole(none, class);
        assert(text::split(written(es), class) =~= lines.push(none));
    } else {
        let rest = es.skip(1);
        assert forall|i: int| 0 <= i < rest.len() implies writable(#[trigger] rest[i]) by {
            assert(rest[i] == es[i + 1]);
        }
        lemma_written_pieces(rest);
        assert(writable(es[0]));
        lemma_entry_line(es[0]);
        text::lemma_split_join(entry_line(es[0]), '\n', written(rest), class);
        assert(text::split(written(es), class) =~= lines.push(none));
    }
}

proof fn lemma_entries_in(es: Seq<(Seq<char>, Seq<char>)>)
    requires
        forall|i: int| 0 <= i < es.len() ==> writable(#[trigger] es[i]),
    ensures
        entries_in(Seq::new(es.len(), |i: int| entry_line(es[i]))) == es,
    decreases es.len(),
{
    let lines = Seq::new(es.len(), |i: int| entry_line(es[i]));
    if es.len() == 0 {
        assert(entries_in(lines) =~= es);
    } else {
        let d = es.drop_last();
        assert forall|i: int| 0 <= i < d.len() implies writable(#[trigger] d[i]) by {
            assert(d[i] == es[i]);
        }
        lemma_entries_in(d);
        assert(lines.drop_last() =~= Seq::new(d.len(), |i: int| entry_line(d[i])));
        assert(es[es.len() - 1] == es.last());
        lemma_entry_line(es.last());
        assert(d.push(es.last()) =~= es);
    }
}

/// Reading a log gives back the entries that were written to it.
pub proof fn law_log_reads_back(es: Seq<(Seq<char>, Seq<char>)>)
    requires
        forall|i: int| 0 <= i < es.len() ==> writable(#[trigger] es[i]),
    ensures
        entries_in(lines_in(written(es))) == es,
{
    let lines = Seq::new(es.len(), |i: int| entry_line(es[i]));
    let ps = text::split(written(es), CharClass::Newline);
    lemma_written_pieces(es);
    assert(ps == lines.push(Seq::<char>::empty()));
    assert(ps.last().len() == 0);
    assert forall|i: int| 0 <= i < es.len() implies #[trigger] lines_in(written(es))[i]
        == lines[i] by {
        assert(writable(es[i]));
        lemma_entry_line(es[i]);
        assert(ps[i] == lines[i]);
    }
    assert(lines_in(written(es)) =~= lines);
    lemma_entries_in(es);
}

// ---------------------------------------------------------------------------------------------
// What the operations give
// ---------------------------------------------------------------------------------------------

/// The digit that stands for a number below ten.
pub open spec fn digit_of(d: int) -> char {
    seq!['0', '1', '2', '3', '4', '5', '6', '7', '8', '9'][d]
}

proof fn lemma_digit(d: int)
    requires
        0 <= d < 10,
    ensures
        CharClass::Digit.has(digit_of(d)),
        digit_of(d) as u32 - '0' as u32 == d,
        digit_of(d) != '+',
{
    let ds = seq!['0', '1', '2', '3', '4', '5', '6', '7', '8', '9'];
    assert(ds[0] == '0' && ds[1] == '1' && ds[2] == '2' && ds[3] == '3' && ds[4] == '4');
    assert(ds[5] == '5' && ds[6] == '6' && ds[7] == '7' && ds[8] == '8' && ds[9] == '9');
}

/// A digit denotes its number; a digit behind a number makes ten times the number and itself, if
/// that fits in a machine word, and a number too large stays so; a `+` in front of digits makes no
/// difference.
pub proof fn law_number_digit_by_digit(ds: Seq<char>, d: int)
    requires
        0 <= d < 10,
    ensures
        number(seq![digit_of(d)]) == Some(d as nat),
        number(ds) matches Some(n) ==> number(ds.push(digit_of(d))) == (if 10 * n + d
            <= usize::MAX {
            Some((10 * n + d) as nat)
        } else {
            None
        }),
        ds.len() > 0 && (forall|i: int|
            0 <= i < ds.len() ==> CharClass::Digit.has(#[trigger] ds[i])) && number(ds) is None
            ==> number(ds.push(digit_of(d))) is None,
        ds.len() > 0 && ds[0] != '+' ==> number(seq!['+'] + ds) == number(ds),
{
    let c = digit_of(d);
    lemma_digit(d);
    let one = seq![c];
    assert(one.drop_last() =~= Seq::<char>::empty());
    assert(value(one.drop_last()) == 0);
    assert(one.last() == c && one[0] == c);
    assert(unsigned(one) == one);
    assert(value(one) == d);
    assert(digits(one));
    let more = ds.push(c);
    if ds.len() > 0 && digits(unsigned(ds)) {
        assert(more[0] == ds[0]);
        let u = unsigned(ds);
        assert(unsigned(more) =~= u.push(c));
        assert(u.push(c).drop_last() =~= u);
        assert(value(u.push(c)) == 10 * value(u) + d);
        assert(digits(u.push(c)));
    }
    if ds.len() > 0 && (forall|i: int| 0 <= i < ds.len() ==> CharClass::Digit.has(#[trigger] ds[i])) {
        assert(CharClass::Digit.has(ds[0]));
        assert(unsigned(ds) == ds);
        assert(digits(ds));
    }
    if ds.len() > 0 && ds[0] != '+' {
        let p = seq!['+'] + ds;
        assert(p[0] == '+');
        assert(p.skip(1) =~= ds);
    }
}

/// A text denotes no number if it is empty or a `+` alone, or if it has anything but digits, save a
/// `+` in front.
pub proof fn law_other_texts_are_no_numbers(s: Seq<char>, i: int)
    ensures
        number(Seq::<char>::empty()) is None,
        number(seq!['+']) is None,
        0 <= i < s.len() && !CharClass::Digit.has(s[i]) && !(i == 0 && s[0] == '+') ==> number(
            s,
        ) is None,
{
    assert(seq!['+'][0] == '+');
    assert(seq!['+'].skip(1) =~= Seq::<char>::empty());
    if 0 <= i < s.len() && !CharClass::Digit.has(s[i]) && !(i == 0 && s[0] == '+') {
        let u = unsigned(s);
        if s[0] == '+' {
            assert(u[i - 1] == s[i]);
        } else {
            assert(u[i] == s[i]);
        }
    }
}

/// How words set options: one of the four names sets its option to the word behind it, `--debug` asks
/// for the debug log, and other words and a name without a word behind it do nothing. What follows
/// is read as if it stood alone.
pub proof fn law_words_set_options(o: Options, name: Seq<char>, v: Seq<char>, rest: Seq<Seq<char>>)
    ensures
        with_words(o, Seq::<Seq<char>>::empty()) == o,
        with_words(o, seq!["--cwd"@, v] + rest) == with_words((Options { cwd: v, ..o }), rest),
        with_words(o, seq!["--prompt"@, v] + rest) == with_words(
            (Options { prompt: Some(v), ..o }),
            rest,
        ),
        with_words(o, seq!["--cwd-log"@, v] + rest) == with_words(
            (Options { cwd_log: Some(v), ..o }),
            rest,
        ),
        with_words(o, seq!["--lines"@, v] + rest) == with_words(
            (Options { lines: number(v), ..o }),
            rest,
        ),
        with_words(o, seq!["--debug"@] + rest) == with_words((Options { debug: true, ..o }), rest),
        name == "--cwd"@ || name == "--prompt"@ || name == "--cwd-log"@ || name == "--lines"@
            ==> with_words(o, seq![name]) == o,
        name != "--cwd"@ && name != "--prompt"@ && name != "--cwd-log"@ && name != "--lines"@ && name
            != "--debug"@ ==> with_words(o, seq![name] + rest) == with_words(o, rest),
{
    reveal_strlit("--cwd");
    reveal_strlit("--prompt");
    reveal_strlit("--cwd-log");
    reveal_strlit("--lines");
    reveal_strlit("--debug");
    assert("--cwd"@.len() == 5 && "--prompt"@.len() == 8 && "--cwd-log"@.len() == 9);
    assert("--lines"@.len() == 7 && "--debug"@.len() == 7);
    assert("--lines"@[2] == 'l' && "--debug"@[2] == 'd');
    lemma_two_words("--cwd"@, v, rest);
    lemma_two_words("--prompt"@, v, rest);
    lemma_two_words("--cwd-log"@, v, rest);
    lemma_two_words("--lines"@, v, rest);
    lemma_one_word("--debug"@, rest);
    lemma_one_word(name, rest);
    assert(seq![name][0] == name);
}

proof fn lemma_two_words(name: Seq<char>, v: Seq<char>, rest: Seq<Seq<char>>)
    ensures
        (seq![name, v] + rest).len() >= 2,
        (seq![name, v] + rest)[0] == name,
        (seq![name, v] + rest)[1] == v,
        (seq![name, v] + rest).skip(2) == rest,
{
    assert((seq![name, v] + rest).skip(2) =~= rest);
}

proof fn lemma_one_word(name: Seq<char>, rest: Seq<Seq<char>>)
    ensures
        (seq![name] + rest)[0] == name,
        (seq![name] + rest).skip(1) == rest,
{
    assert((seq![name] + rest).skip(1) =~= rest);
}

/// The options begin with the present directory and nothing else set; the environment adds the debug
/// log, and takes nothing away.
pub proof fn law_options_begin_with_present_directory(
    words: Seq<Seq<char>>,
    current_dir: Seq<char>,
    debug_env: bool,
)
    ensures
        ({
            let first = Options {
                cwd: current_dir,
                prompt: None,
                cwd_log: None,
                lines: None,
                debug: false,
            };
            let read = with_words(first, words);
            let all = options(words, current_dir, debug_env);
            &&& all.cwd == read.cwd && all.prompt == read.prompt && all.cwd_log == read.cwd_log
                && all.lines == read.lines
            &&& all.debug <==> read.debug || debug_env
        }),
{
}

/// The last lines are the end of the lines, as many as asked for, and all where there are no more.
pub proof fn law_last_lines_are_the_end(lines: Seq<Seq<char>>, n: nat)
    ensures
        last_lines(lines, None) == lines,
        last_lines(lines, Some(n)).is_suffix_of(lines),
        last_lines(lines, Some(n)).len() == (if n < lines.len() {
            n
        } else {
            lines.len()
        }),
{
    if n < lines.len() {
        let t = last_lines(lines, Some(n));
        assert(t =~= lines.subrange(lines.len() - n, lines.len() as int));
    } else {
        assert(lines =~= lines.subrange(0, lines.len() as int));
    }
}

/// A line ends at its line feed, and a carriage return right before it belongs to its end; what
/// follows is read as if it stood alone, and a last line needs no end.
pub proof fn law_lines_end_at_line_feeds(line: Seq<char>, rest: Seq<char>)
    requires
        !line.contains('\n'),
    ensures
        lines_in(Seq::<char>::empty()).len() == 0,
        line.len() > 0 ==> lines_in(line) == seq![line],
        !(line.len() > 0 && line.last() == '\r') ==> lines_in(line + seq!['\n'] + rest) == seq![line]
            + lines_in(rest),
        lines_in(line + seq!['\r', '\n'] + rest) == seq![line] + lines_in(rest),
{
    let class = CharClass::Newline;
    let none = Seq::<char>::empty();
    text::lemma_split_whole(none, class);
    assert forall|i: int| 0 <= i < line.len() implies !class.has(#[trigger] line[i]) by {
        assert(line.contains(line[i]));
    }
    text::lemma_split_whole(line, class);
    if line.len() > 0 {
        assert(lines_in(line) =~= seq![line]);
    }
    if !(line.len() > 0 && line.last() == '\r') {
        assert(line + seq!['\n'] + rest =~= line.push('\n') + rest);
        lemma_line_first(line, rest);
    }
    let ended = line.push('\r');
    assert forall|i: int| 0 <= i < ended.len() implies !class.has(#[trigger] ended[i]) by {
        if i < line.len() {
            assert(ended[i] == line[i]);
        }
    }
    assert(line + seq!['\r', '\n'] + rest =~= ended.push('\n') + rest);
    assert(ended.drop_last() =~= line);
    lemma_line_first(ended, rest);
}

proof fn lemma_line_first(line: Seq<char>, rest: Seq<char>)
    requires
        forall|i: int| 0 <= i < line.len() ==> !CharClass::Newline.has(#[trigger] line[i]),
    ensures
        lines_in(line.push('\n') + rest) == seq![without_return(line)] + lines_in(rest),
{
    let class = CharClass::Newline;
    let s = line.push('\n') + rest;
    text::lemma_split_whole(line, class);
    text::lemma_split_join(line, '\n', rest, class);
    text::lemma_pieces_len(text::cut(rest, class));
    let ps = text::split(s, class);
    let qs = text::split(rest, class);
    assert(ps =~= seq![line] + qs);
    assert(ps.last() == qs.last());
    let ended = Seq::new((ps.len() - 1) as nat, |i: int| without_return(ps[i]));
    let later = Seq::new((qs.len() - 1) as nat, |i: int| without_return(qs[i]));
    assert(ended =~= seq![without_return(line)] + later);
    assert(lines_in(s) =~= seq![without_return(line)] + lines_in(rest));
}

/// A line of the log is divided at its first tab; one without a tab holds no entry.
pub proof fn law_entry_is_divided_at_first_tab(dir: Seq<char>, cmd: Seq<char>)
    requires
        !dir.contains('\t'),
    ensures
        entry_in(dir + seq!['\t'] + cmd) == Some((dir, cmd)),
        entry_in(dir) is None,
{
    let class = CharClass::Tab;
    let line = dir + seq!['\t'] + cmd;
    let k = dir.len() as int;
    assert forall|i: int| 0 <= i < dir.len() implies !class.has(#[trigger] dir[i]) by {
        assert(dir.contains(dir[i]));
    }
    text::lemma_until(dir, class, k);
    assert(forall|i: int| 0 <= i < k ==> line[i] == dir[i]);
    assert(line[k] == '\t');
    text::lemma_until(line, class, k);
    assert(line.take(k) =~= dir);
    assert(line.skip(k + 1) =~= cmd);
}

/// The entries of a log are those of its lines, one after the other.
pub proof fn law_entries_line_by_line(a: Seq<Seq<char>>, b: Seq<Seq<char>>, line: Seq<char>)
    ensures
        entries_in(a + b) == entries_in(a) + entries_in(b),
        entry_in(line) matches Some(e) ==> entries_in(seq![line]) == seq![e],
        entry_in(line) is None ==> entries_in(seq![line]).len() == 0,
    decreases b.len(),
{
    let one = seq![line];
    let none = one.drop_last();
    assert(none.len() == 0);
    assert(one.last() == line);
    assert(entries_in(none) =~= Seq::<(Seq<char>, Seq<char>)>::empty());
    match entry_in(line) {
        Some(e) => {
            assert(entries_in(one) =~= seq![e]);
        },
        None => {},
    }
    if b.len() == 0 {
        assert(a + b =~= a);
        assert(entries_in(b) =~= Seq::<(Seq<char>, Seq<char>)>::empty());
    } else {
        assert((a + b).drop_last() =~= a + b.drop_last());
        law_entries_line_by_line(a, b.drop_last(), line);
    }
    assert(entries_in(a + b) =~= entries_in(a) + entries_in(b));
}

} // verus!
