use vstd::prelude::*;
use crate::model::{Entry, Fault, Session, Step, apply, slash};

verus! {

/// White space as `char::is_whitespace` counts it (the Unicode `White_Space`
/// property).
pub open spec fn is_space(c: char) -> bool {
    let u = c as u32;
    ||| u == 0x20
    ||| 0x09 <= u <= 0x0d
    ||| u == 0x85
    ||| u == 0xa0
    ||| u == 0x1680
    ||| 0x2000 <= u <= 0x200a
    ||| u == 0x2028
    ||| u == 0x2029
    ||| u == 0x202f
    ||| u == 0x205f
    ||| u == 0x3000
}

/// Words finished so far, and the word being read, after reading `s`.
pub open spec fn scan_words(s: Seq<char>) -> (Seq<Seq<char>>, Seq<char>)
    decreases s.len(),
{
    if s.len() == 0 {
        (Seq::empty(), Seq::empty())
    } else {
        let (ws, cur) = scan_words(s.drop_last());
        if is_space(s.last()) {
            if cur.len() > 0 {
                (ws.push(cur), Seq::empty())
            } else {
                (ws, cur)
            }
        } else {
            (ws, cur.push(s.last()))
        }
    }
}

/// The maximal runs of non-space characters of `s`, in order.
pub open spec fn words(s: Seq<char>) -> Seq<Seq<char>> {
    let (ws, cur) = scan_words(s);
    if cur.len() > 0 {
        ws.push(cur)
    } else {
        ws
    }
}

/// Lines finished so far, and the line being read, after reading `s`.
pub open spec fn scan_lines(s: Seq<char>) -> (Seq<Seq<char>>, Seq<char>)
    decreases s.len(),
{
    if s.len() == 0 {
        (Seq::empty(), Seq::empty())
    } else {
        let (ls, cur) = scan_lines(s.drop_last());
        if s.last() == '\n' {
            (ls.push(cur), Seq::empty())
        } else {
            (ls, cur.push(s.last()))
        }
    }
}

/// A line without the carriage return that may end it.
pub open spec fn strip_cr(l: Seq<char>) -> Seq<char> {
    if l.len() > 0 && l.last() == '\r' {
        l.drop_last()
    } else {
        l
    }
}

/// The lines of `s` as `str::lines` gives them: split at each line feed, a
/// final line feed ends the last line rather than starting an empty one, and
/// a carriage return before a line feed is dropped.
pub open spec fn lines(s: Seq<char>) -> Seq<Seq<char>> {
    let (ls, cur) = scan_lines(s);
    let all = if cur.len() > 0 {
        ls.push(cur)
    } else {
        ls
    };
    all.map_values(|l: Seq<char>| strip_cr(l))
}

pub open spec fn is_digit(c: char) -> bool {
    '0' <= c <= '9'
}

/// Decimal value of a string of digits.
pub open spec fn digits_value(s: Seq<char>) -> nat
    decreases s.len(),
{
    if s.len() == 0 {
        0
    } else {
        digits_value(s.drop_last()) * 10 + (s.last() as nat - '0' as nat) as nat
    }
}

/// `s` without one leading `+`.
pub open spec fn unsigned_part(s: Seq<char>) -> Seq<char> {
    if s.len() > 0 && s[0] == '+' {
        s.drop_first()
    } else {
        s
    }
}

pub open spec fn all_digits(d: Seq<char>) -> bool {
    forall|i: int| 0 <= i < d.len() ==> is_digit(#[trigger] d[i])
}

/// What `from_str` of an unsigned integer type whose largest value is `max`
/// accepts: an optional `+`, then one or more ASCII digits whose value is at
/// most `max`.
pub open spec fn parse_num(s: Seq<char>, max: nat) -> Option<nat> {
    let d = unsigned_part(s);
    if d.len() > 0 && all_digits(d) && digits_value(d) <= max {
        Some(digits_value(d))
    } else {
        None
    }
}

/// What `u32::from_str` accepts.
pub open spec fn parse_u32(s: Seq<char>) -> Option<u32> {
    match parse_num(s, u32::MAX as nat) {
        Some(v) => Some(v as u32),
        None => None,
    }
}

/// The command that a line's words stand for, if any.
pub open spec fn step_of(ws: Seq<Seq<char>>) -> Option<Step> {
    if ws.len() == 3 && ws[0] == seq!['$'] && ws[1] == seq!['c', 'd'] {
        if ws[2] == slash() {
            Some(Step::RootChange)
        } else {
            Some(Step::ChangeDir(ws[2]))
        }
    } else if ws.len() == 2 && ws[0] == seq!['$'] && ws[1] == seq!['l', 's'] {
        Some(Step::List)
    } else if ws.len() == 2 && ws[0] == seq!['d', 'i', 'r'] {
        Some(Step::DirEntry(ws[1]))
    } else if ws.len() == 2 && parse_u32(ws[0]) is Some {
        Some(Step::FileEntry(ws[1], parse_u32(ws[0])->Some_0 as nat))
    } else {
        None
    }
}

/// One parsed transcript line.
#[derive(Debug)]
pub enum Command {
    /// `$ cd /`
    RootChange,
    /// `$ cd <name>`, where the name may be `..`
    ChangeDir(String),
    /// `$ ls`
    List,
    /// `dir <name>`
    DirEntry(String),
    /// `<size> <name>`
    FileEntry(String, u32),
}

impl View for Command {
    type V = Step;

    open spec fn view(&self) -> Step {
        match self {
            Command::RootChange => Step::RootChange,
            Command::ChangeDir(n) => Step::ChangeDir(n@),
            Command::List => Step::List,
            Command::DirEntry(n) => Step::DirEntry(n@),
            Command::FileEntry(n, z) => Step::FileEntry(n@, *z as nat),
        }
    }
}

/// Why a transcript does not describe a tree.
pub enum Failure {
    /// This line is no command.
    Parse(Seq<char>),
    /// A command could not be carried out.
    Nav(Fault),
}

/// The builder's state after the lines `ls`, stopping at the first line that
/// is no command or cannot be carried out.
pub open spec fn run(ls: Seq<Seq<char>>) -> Result<Session, Failure>
    decreases ls.len(),
{
    if ls.len() == 0 {
        Ok(Session::initial())
    } else {
        match run(ls.drop_last()) {
            Err(f) => Err(f),
            Ok(s) => match step_of(words(ls.last())) {
                None => Err(Failure::Parse(ls.last())),
                Some(c) => match apply(s, c) {
                    Ok(t) => Ok(t),
                    Err(f) => Err(Failure::Nav(f)),
                },
            },
        }
    }
}

/// The tree that the transcript `text` describes. A transcript that never
/// reaches `cd /` describes none.
pub open spec fn transcript_tree(text: Seq<char>) -> Result<Entry, Failure> {
    match run(lines(text)) {
        Err(f) => Err(f),
        Ok(s) => match s.root {
            None => Err(Failure::Nav(Fault::Uninitialized)),
            Some(r) => Ok(r),
        },
    }
}

/// Why a tree could not be built from a transcript.
#[derive(Debug)]
pub enum BuildError {
    /// The line that is no command.
    Parse(String),
    /// Why a command could not be carried out.
    Nav(Fault),
}

impl View for BuildError {
    type V = Failure;

    open spec fn view(&self) -> Failure {
        match self {
            BuildError::Parse(l) => Failure::Parse(l@),
            BuildError::Nav(f) => Failure::Nav(*f),
        }
    }
}

/// One step of `run`.
pub proof fn lemma_run_step(ls: Seq<Seq<char>>, i: int)
    requires
        0 <= i < ls.len(),
    ensures
        run(ls.take(i + 1)) == match run(ls.take(i)) {
            Err(f) => Err(f),
            Ok(s) => match step_of(words(ls[i])) {
                None => Err(Failure::Parse(ls[i])),
                Some(c) => match apply(s, c) {
                    Ok(t) => Ok(t),
                    Err(f) => Err(Failure::Nav(f)),
                },
            },
        },
{
    assert(ls.take(i + 1).drop_last() =~= ls.take(i));
    assert(ls.take(i + 1).last() == ls[i]);
}

/// Once `run` fails, the failure stands whatever lines follow.
pub proof fn lemma_run_failure_stays(ls: Seq<Seq<char>>, i: int)
    requires
        0 <= i <= ls.len(),
        run(ls.take(i)) is Err,
    ensures
        run(ls) == run(ls.take(i)),
    decreases ls.len() - i,
{
    if i < ls.len() {
        lemma_run_step(ls, i);
        lemma_run_failure_stays(ls, i + 1);
    } else {
        assert(ls.take(i) =~= ls);
    }
}

/// The characters of `s`, in order.
pub fn chars_of(s: &str) -> (r: Vec<char>)
    ensures
        r@ == s@,
{
    let mut out: Vec<char> = Vec::new();
    for c in it: s.chars()
        invariant
            out@ == it.seq().take(it.index() as int),
    {
        out.push(c);
    }
    out
}

pub fn is_space_char(c: char) -> (r: bool)
    ensures
        r == is_space(c),
{
    let u = c as u32;
    u == 0x20 || (0x09 <= u && u <= 0x0d) || u == 0x85 || u == 0xa0 || u == 0x1680 || (0x2000
        <= u && u <= 0x200a) || u == 0x2028 || u == 0x2029 || u == 0x202f || u == 0x205f || u
        == 0x3000
}

/// Whether `a` and `b` hold the same characters.
pub fn same_text(a: &str, b: &str) -> (r: bool)
    ensures
        r == (a@ == b@),
{
    let x = chars_of(a);
    let y = chars_of(b);
    if x.len() != y.len() {
        return false;
    }
    let mut i: usize = 0;
    while i < x.len()
        invariant
            x@ == a@,
            y@ == b@,
            x.len() == y.len(),
            i <= x.len(),
            forall|j: int| 0 <= j < i ==> x@[j] == y@[j],
        decreases x.len() - i,
    {
        if x[i] != y[i] {
            return false;
        }
        i = i + 1;
    }
    assert(x@ =~= y@);
    true
}

/// Start and end positions in `cs` of the words of `cs[a..b]`.
pub fn word_bounds(cs: &Vec<char>, a: usize, b: usize) -> (r: Vec<(usize, usize)>)
    requires
        a <= b <= cs.len(),
    ensures
        r.len() == words(cs@.subrange(a as int, b as int)).len(),
        forall|k: int|
            0 <= k < r.len() ==> a <= (#[trigger] r[k]).0 <= r[k].1 <= b && cs@.subrange(
                r[k].0 as int,
                r[k].1 as int,
            ) == words(cs@.subrange(a as int, b as int))[k],
{
    let mut out: Vec<(usize, usize)> = Vec::new();
    let mut start: usize = a;
    let mut i: usize = a;
    while i < b
        invariant
            a <= start <= i <= b <= cs.len(),
            out.len() == scan_words(cs@.subrange(a as int, i as int)).0.len(),
            scan_words(cs@.subrange(a as int, i as int)).1 == cs@.subrange(start as int, i as int),
            forall|k: int|
                0 <= k < out.len() ==> a <= (#[trigger] out[k]).0 <= out[k].1 <= i
                    && cs@.subrange(out[k].0 as int, out[k].1 as int) == scan_words(
                    cs@.subrange(a as int, i as int),
                ).0[k],
        decreases b - i,
    {
        let ghost before = cs@.subrange(a as int, i as int);
        let ghost after = cs@.subrange(a as int, i + 1);
        assert(after.drop_last() =~= before);
        assert(after.last() == cs@[i as int]);
        let c = cs[i];
        if is_space_char(c) {
            if start < i {
                out.push((start, i));
            }
            start = i + 1;
            assert(cs@.subrange(start as int, i + 1) =~= Seq::<char>::empty());
        } else {
            assert(cs@.subrange(start as int, i + 1) =~= cs@.subrange(start as int, i as int).push(c));
        }
        i = i + 1;
    }
    if start < b {
        out.push((start, b));
    }
    out
}

/// Start and end positions in `cs` of the lines of `cs`.
pub fn line_bounds(cs: &Vec<char>) -> (r: Vec<(usize, usize)>)
    ensures
        r.len() == lines(cs@).len(),
        forall|k: int|
            0 <= k < r.len() ==> (#[trigger] r[k]).0 <= r[k].1 <= cs.len() && cs@.subrange(
                r[k].0 as int,
                r[k].1 as int,
            ) == lines(cs@)[k],
{
    let mut out: Vec<(usize, usize)> = Vec::new();
    let mut start: usize = 0;
    let mut i: usize = 0;
    let n = cs.len();
    while i < n
        invariant
            start <= i <= n == cs.len(),
            out.len() == scan_lines(cs@.subrange(0, i as int)).0.len(),
            scan_lines(cs@.subrange(0, i as int)).1 == cs@.subrange(start as int, i as int),
            forall|k: int|
                0 <= k < out.len() ==> (#[trigger] out[k]).0 <= out[k].1 <= i && cs@.subrange(
                    out[k].0 as int,
                    out[k].1 as int,
                ) == strip_cr(scan_lines(cs@.subrange(0, i as int)).0[k]),
        decreases n - i,
    {
        let ghost before = cs@.subrange(0, i as int);
        let ghost after = cs@.subrange(0, i + 1);
        assert(after.drop_last() =~= before);
        assert(after.last() == cs@[i as int]);
        let c = cs[i];
        if c == '\n' {
            out.push(trimmed(cs, start, i));
            start = i + 1;
            assert(cs@.subrange(start as int, i + 1) =~= Seq::<char>::empty());
        } else {
            assert(cs@.subrange(start as int, i + 1) =~= cs@.subrange(start as int, i as int).push(c));
        }
        i = i + 1;
    }
    assert(cs@.subrange(0, n as int) =~= cs@);
    if start < n {
        out.push(trimmed(cs, start, n));
    }
    out
}

/// The bounds of `cs[a..b]` without a final carriage return.
fn trimmed(cs: &Vec<char>, a: usize, b: usize) -> (r: (usize, usize))
    requires
        a <= b <= cs.len(),
    ensures
        a <= r.0 <= r.1 <= b,
        cs@.subrange(r.0 as int, r.1 as int) == strip_cr(cs@.subrange(a as int, b as int)),
{
    if a < b && cs[b - 1] == '\r' {
        assert(cs@.subrange(a as int, b - 1) =~= cs@.subrange(a as int, b as int).drop_last());
        (a, b - 1)
    } else {
        (a, b)
    }
}

proof fn lemma_digits_grow(d: Seq<char>, i: int)
    requires
        0 <= i <= d.len(),
    ensures
        digits_value(d.take(i)) <= digits_value(d),
    decreases d.len() - i,
{
    if i < d.len() {
        lemma_digits_grow(d, i + 1);
        assert(d.take(i + 1).drop_last() =~= d.take(i));
    } else {
        assert(d.take(i) =~= d);
    }
}

/// `from_str` of an unsigned integer type whose largest value is `max`, on
/// `cs[a..b]`.
pub fn parse_num_chars(cs: &Vec<char>, a: usize, b: usize, max: u64) -> (r: Option<u64>)
    requires
        a <= b <= cs.len(),
    ensures
        match parse_num(cs@.subrange(a as int, b as int), max as nat) {
            Some(v) => r == Some(v as u64),
            None => r is None,
        },
{
    let ghost s = cs@.subrange(a as int, b as int);
    let start: usize = if a < b && cs[a] == '+' {
        a + 1
    } else {
        a
    };
    let ghost d = cs@.subrange(start as int, b as int);
    assert(start > a ==> d =~= s.drop_first());
    assert(start == a ==> d =~= s);
    let ghost pd = unsigned_part(s);
    assert(a < b ==> s[0] == cs@[a as int]);
    assert(pd =~= d);
    if start == b {
        return None;
    }
    let mut v: u64 = 0;
    let mut i: usize = start;
    while i < b
        invariant
            a <= start <= i <= b <= cs.len(),
            d == cs@.subrange(start as int, b as int),
            s == cs@.subrange(a as int, b as int),
            pd == d,
            pd == unsigned_part(s),
            v == digits_value(d.take(i - start)),
            v <= max,
            forall|j: int| 0 <= j < i - start ==> is_digit(#[trigger] d[j]),
        decreases b - i,
    {
        let c = cs[i];
        assert(d.take(i - start + 1).drop_last() =~= d.take(i - start));
        assert(d.take(i - start + 1).last() == c);
        if !('0' <= c && c <= '9') {
            assert(!is_digit(pd[i - start]));
            assert(parse_num(s, max as nat) is None);
            return None;
        }
        let digit = c as u64 - '0' as u64;
        assert(digits_value(d.take(i - start + 1)) == v * 10 + digit);
        if digit > max || v > (max - digit) / 10 {
            assert(v * 10 + digit > max) by (nonlinear_arith)
                requires
                    digit > max || v > (max - digit) / 10,
                    digit <= max ==> (max - digit) / 10 * 10 + 10 > max - digit,
            ;
            proof {
                lemma_digits_grow(d, i - start + 1);
                assert(digits_value(pd) > max);
            }
            assert(parse_num(s, max as nat) is None);
            return None;
        }
        assert(v * 10 + digit <= max) by (nonlinear_arith)
            requires
                v <= (max - digit) / 10,
                (max - digit) / 10 * 10 <= max - digit,
        ;
        v = v * 10 + digit;
        i = i + 1;
    }
    assert(d.take(i - start) =~= d);
    Some(v)
}

/// `u32::from_str` on `cs[a..b]`.
pub fn parse_u32_chars(cs: &Vec<char>, a: usize, b: usize) -> (r: Option<u32>)
    requires
        a <= b <= cs.len(),
    ensures
        r == parse_u32(cs@.subrange(a as int, b as int)),
{
    match parse_num_chars(cs, a, b, u32::MAX as u64) {
        Some(v) => Some(v as u32),
        None => None,
    }
}

/// Parses one line, `cs[a..b]` of the text `text`.
pub fn parse_line(text: &str, cs: &Vec<char>, a: usize, b: usize) -> (r: Option<Command>)
    requires
        cs@ == text@,
        a <= b <= cs.len(),
    ensures
        match step_of(words(cs@.subrange(a as int, b as int))) {
            Some(st) => r matches Some(c) && c@ == st,
            None => r is None,
        },
{
    let ghost ws = words(cs@.subrange(a as int, b as int));
    let wb = word_bounds(cs, a, b);
    let n = wb.len();
    if n < 2 || n > 3 {
        return None;
    }
    let (a0, b0) = wb[0];
    let (a1, b1) = wb[1];
    let is_dollar = b0 - a0 == 1 && cs[a0] == '$';
    assert(is_dollar ==> ws[0] =~= seq!['$']);
    assert(ws[0] == seq!['$'] ==> ws[0].len() == 1 && ws[0][0] == '$');
    if n == 3 {
        let is_cd = b1 - a1 == 2 && cs[a1] == 'c' && cs[a1 + 1] == 'd';
        assert(is_cd ==> ws[1] =~= seq!['c', 'd']);
        assert(ws[1] == seq!['c', 'd'] ==> ws[1].len() == 2 && ws[1][0] == 'c' && ws[1][1] == 'd');
        if !(is_dollar && is_cd) {
            return None;
        }
        let (a2, b2) = wb[2];
        let name = text.substring_char(a2, b2).to_owned();
        if b2 - a2 == 1 && cs[a2] == '/' {
            assert(ws[2] =~= slash());
            return Some(Command::RootChange);
        }
        assert(ws[2] == slash() ==> ws[2].len() == 1 && ws[2][0] == '/');
        assert(ws[2] != slash());
        return Some(Command::ChangeDir(name));
    }
    let is_ls = b1 - a1 == 2 && cs[a1] == 'l' && cs[a1 + 1] == 's';
    assert(is_ls ==> ws[1] =~= seq!['l', 's']);
    assert(ws[1] == seq!['l', 's'] ==> ws[1].len() == 2 && ws[1][0] == 'l' && ws[1][1] == 's');
    if is_dollar && is_ls {
        return Some(Command::List);
    }
    let name = text.substring_char(a1, b1).to_owned();
    let is_dir = b0 - a0 == 3 && cs[a0] == 'd' && cs[a0 + 1] == 'i' && cs[a0 + 2] == 'r';
    assert(is_dir ==> ws[0] =~= seq!['d', 'i', 'r']);
    assert(ws[0] == seq!['d', 'i', 'r'] ==> ws[0].len() == 3 && ws[0][0] == 'd' && ws[0][1] == 'i'
        && ws[0][2] == 'r');
    if is_dir {
        return Some(Command::DirEntry(name));
    }
    match parse_u32_chars(cs, a0, b0) {
        Some(z) => Some(Command::FileEntry(name, z)),
        None => None,
    }
}

} // verus!
