use vstd::prelude::*;
use crate::calories::{groups, group_bounds};
use crate::transcript::{
    chars_of, is_space, is_space_char, line_bounds, lines, parse_num, parse_num_chars, word_bounds,
    words,
};

verus! {

/// Whether `c` has the Unicode `Alphabetic` property, as `char::is_alphabetic`
/// decides it.
pub uninterp spec fn alphabetic(c: char) -> bool;

/// Relies on `char::is_alphabetic`: the answer depends on the character
/// alone; ASCII letters have the property, and ASCII digits, space and
/// brackets do not.
#[verifier::external_body]
fn is_alphabetic(c: char) -> (r: bool)
    ensures
        r == alphabetic(c),
        ('a' <= c <= 'z' || 'A' <= c <= 'Z') ==> r,
        ('0' <= c <= '9' || c == ' ' || c == '[' || c == ']') ==> !r,
{
    c.is_alphabetic()
}

/// A stack of crates, bottom first.
#[derive(PartialEq, Debug, Clone)]
pub struct Stack(pub Vec<char>);

/// The stacks of a ship, numbered from one.
#[derive(PartialEq, Debug, Clone)]
pub struct Ship(pub Vec<Stack>);

/// Move `mv` crates from stack `from` to stack `to` (numbered from one).
#[derive(PartialEq, Eq, Structural, Clone, Copy, Debug)]
pub struct Instruction {
    pub mv: usize,
    pub from: usize,
    pub to: usize,
}

/// Why a drawing or a procedure could not be read or carried out.
#[derive(PartialEq, Eq, Structural, Clone, Copy, Debug)]
pub enum CraneError {
    /// The input has no blank line between drawing and procedure.
    NoParts,
    /// The drawing has no line, or its last line does not end in the count.
    NoCount,
    /// A slot of the drawing holds more than one letter.
    BadSlot,
    /// A crate stands beyond the last numbered stack.
    NoSuchStack,
    /// A line of the procedure is no `move _ from _ to _`.
    BadInstruction,
    /// A crate was taken from an empty stack.
    EmptyStack,
}

pub open spec fn ship_view(s: &Ship) -> Seq<Seq<char>> {
    s.0@.map_values(|st: Stack| st.0@)
}

/// A line with no character but white space.
pub open spec fn blank(l: Seq<char>) -> bool {
    forall|i: int| 0 <= i < l.len() ==> is_space(#[trigger] l[i])
}

/// The lines that are not blank, in order.
pub open spec fn nonblank(ls: Seq<Seq<char>>) -> Seq<Seq<char>>
    decreases ls.len(),
{
    if ls.len() == 0 {
        Seq::empty()
    } else if blank(ls.last()) {
        nonblank(ls.drop_last())
    } else {
        nonblank(ls.drop_last()).push(ls.last())
    }
}

/// The letters in slot `k` of a drawing line: characters `4k` to `4k + 3`.
pub open spec fn slot(l: Seq<char>, k: int) -> Seq<char> {
    let a = 4 * k;
    let b = if 4 * k + 4 <= l.len() {
        4 * k + 4
    } else {
        l.len() as int
    };
    letters(l.subrange(a, b))
}

pub open spec fn letters(s: Seq<char>) -> Seq<char>
    decreases s.len(),
{
    if s.len() == 0 {
        Seq::empty()
    } else if alphabetic(s.last()) {
        letters(s.drop_last()).push(s.last())
    } else {
        letters(s.drop_last())
    }
}

/// Number of slots of a drawing line.
pub open spec fn slots(l: Seq<char>) -> int {
    ((l.len() + 3) / 4) as int
}

/// The stacks after the crates of the first `k` slots of line `l` are put on.
pub open spec fn place_slots(st: Seq<Seq<char>>, l: Seq<char>, k: int) -> Result<Seq<Seq<char>>, CraneError>
    decreases k,
{
    if k <= 0 {
        Ok(st)
    } else {
        match place_slots(st, l, k - 1) {
            Err(e) => Err(e),
            Ok(s) => {
                let ls = slot(l, k - 1);
                if ls.len() == 0 {
                    Ok(s)
                } else if ls.len() > 1 {
                    Err(CraneError::BadSlot)
                } else if k - 1 >= s.len() {
                    Err(CraneError::NoSuchStack)
                } else {
                    Ok(s.update(k - 1, s[k - 1].push(ls[0])))
                }
            },
        }
    }
}

/// The stacks after the drawing lines `rows[..n]` are put on, bottom line
/// (the last) first.
pub open spec fn place_rows(st: Seq<Seq<char>>, rows: Seq<Seq<char>>, n: int) -> Result<Seq<Seq<char>>, CraneError>
    decreases n,
{
    if n <= 0 {
        Ok(st)
    } else {
        match place_rows(st, rows, n - 1) {
            Err(e) => Err(e),
            Ok(s) => place_slots(s, rows[rows.len() - n], slots(rows[rows.len() - n])),
        }
    }
}

/// The stacks a drawing describes.
pub open spec fn ship_of(s: Seq<char>) -> Result<Seq<Seq<char>>, CraneError> {
    let ls = nonblank(lines(s));
    if ls.len() == 0 {
        Err(CraneError::NoCount)
    } else {
        let ws = words(ls.last());
        if ws.len() == 0 {
            Err(CraneError::NoCount)
        } else {
            match parse_num(ws.last(), usize::MAX as nat) {
                None => Err(CraneError::NoCount),
                Some(n) => place_rows(
                    Seq::new(n, |i: int| Seq::<char>::empty()),
                    ls.drop_last(),
                    ls.len() - 1,
                ),
            }
        }
    }
}

fn is_blank(cs: &Vec<char>, a: usize, b: usize) -> (r: bool)
    requires
        a <= b <= cs.len(),
    ensures
        r == blank(cs@.subrange(a as int, b as int)),
{
    let ghost l = cs@.subrange(a as int, b as int);
    let mut i: usize = a;
    while i < b
        invariant
            a <= i <= b <= cs.len(),
            l == cs@.subrange(a as int, b as int),
            forall|k: int| 0 <= k < i - a ==> is_space(#[trigger] l[k]),
        decreases b - i,
    {
        if !is_space_char(cs[i]) {
            assert(l[i - a] == cs@[i as int]);
            return false;
        }
        i = i + 1;
    }
    true
}

/// The letters of `cs[a..b]`, in order.
fn letters_of(cs: &Vec<char>, a: usize, b: usize) -> (r: Vec<char>)
    requires
        a <= b <= cs.len(),
    ensures
        r@ == letters(cs@.subrange(a as int, b as int)),
{
    let mut out: Vec<char> = Vec::new();
    let mut i: usize = a;
    assert(cs@.subrange(a as int, a as int) =~= Seq::<char>::empty());
    while i < b
        invariant
            a <= i <= b <= cs.len(),
            out@ == letters(cs@.subrange(a as int, i as int)),
        decreases b - i,
    {
        assert(cs@.subrange(a as int, i + 1).drop_last() =~= cs@.subrange(a as int, i as int));
        assert(cs@.subrange(a as int, i + 1).last() == cs@[i as int]);
        if is_alphabetic(cs[i]) {
            out.push(cs[i]);
        }
        i = i + 1;
    }
    out
}

impl Ship {
    /// Reads a drawing of stacks: rows of `[X]` slots four characters wide,
    /// top row first, then a line of stack numbers whose last one is the
    /// count. Blank lines are skipped.
    pub fn parse(s: &str) -> (r: Result<Ship, CraneError>)
        ensures
            match ship_of(s@) {
                Ok(st) => r matches Ok(ship) && ship_view(&ship) == st,
                Err(e) => r matches Err(x) && x == e,
            },
    {
        let cs = chars_of(s);
        let lb = line_bounds(&cs);
        let ghost ls = lines(s@);
        let mut kept: Vec<(usize, usize)> = Vec::new();
        let mut i: usize = 0;
        assert(ls.take(0) =~= Seq::<Seq<char>>::empty());
        while i < lb.len()
            invariant
                cs@ == s@,
                ls == lines(s@),
                lb.len() == ls.len(),
                forall|k: int|
                    0 <= k < lb.len() ==> (#[trigger] lb[k]).0 <= lb[k].1 <= cs.len() && cs@.subrange(
                        lb[k].0 as int,
                        lb[k].1 as int,
                    ) == ls[k],
                i <= lb.len(),
                kept.len() == nonblank(ls.take(i as int)).len(),
                forall|k: int|
                    0 <= k < kept.len() ==> (#[trigger] kept[k]).0 <= kept[k].1 <= cs.len()
                        && cs@.subrange(kept[k].0 as int, kept[k].1 as int) == nonblank(
                        ls.take(i as int),
                    )[k],
            decreases lb.len() - i,
        {
            assert(ls.take(i + 1).drop_last() =~= ls.take(i as int));
            assert(ls.take(i + 1).last() == ls[i as int]);
            let (a, b) = lb[i];
            if !is_blank(&cs, a, b) {
                kept.push((a, b));
            }
            i = i + 1;
        }
        assert(ls.take(i as int) =~= ls);
        let ghost kl = nonblank(ls);
        if kept.len() == 0 {
            return Err(CraneError::NoCount);
        }
        let (la, lbb) = kept[kept.len() - 1];
        assert(kl.last() == cs@.subrange(la as int, lbb as int));
        let wb = word_bounds(&cs, la, lbb);
        if wb.len() == 0 {
            return Err(CraneError::NoCount);
        }
        let (wa, wz) = wb[wb.len() - 1];
        let n = match parse_num_chars(&cs, wa, wz, usize::MAX as u64) {
            Some(n) => n as usize,
            None => {
                return Err(CraneError::NoCount);
            },
        };
        let mut ship = Ship(Vec::new());
        let mut j: usize = 0;
        assert(ship_view(&ship) =~= Seq::new(0, |i: int| Seq::<char>::empty()));
        while j < n
            invariant
                j <= n,
                ship_view(&ship) == Seq::new(j as nat, |i: int| Seq::<char>::empty()),
            decreases n - j,
        {
            let ghost before = ship_view(&ship);
            let empty: Vec<char> = Vec::new();
            assert(empty@ == Seq::<char>::empty());
            ship.0.push(Stack(empty));
            assert(ship_view(&ship) =~= before.push(Seq::<char>::empty()));
            j = j + 1;
            assert(ship_view(&ship) =~= Seq::new(j as nat, |i: int| Seq::<char>::empty()));
        }
        let ghost rows = kl.drop_last();
        let nrows = kept.len() - 1;
        assert(ship_of(s@) == place_rows(
            Seq::new(n as nat, |i: int| Seq::<char>::empty()),
            rows,
            nrows as int,
        ));
        let mut m: usize = 0;
        while m < nrows
            invariant
                nrows == rows.len(),
                kl.len() == nrows + 1,
                nrows == kept.len() - 1,
                rows == kl.drop_last(),
                kept.len() == kl.len(),
                ship_of(s@) == place_rows(
                    Seq::new(n as nat, |i: int| Seq::<char>::empty()),
                    rows,
                    nrows as int,
                ),
                forall|k: int|
                    0 <= k < kept.len() ==> (#[trigger] kept[k]).0 <= kept[k].1 <= cs.len()
                        && cs@.subrange(kept[k].0 as int, kept[k].1 as int) == kl[k],
                m <= nrows,
                place_rows(Seq::new(n as nat, |i: int| Seq::<char>::empty()), rows, m as int) == Ok::<
                    Seq<Seq<char>>,
                    CraneError,
                >(ship_view(&ship)),
            decreases nrows - m,
        {
            let (ra, rb) = kept[nrows - 1 - m];
            assert(rows[rows.len() - (m + 1)] == kl[nrows - 1 - m]);
            assert(cs@.subrange(ra as int, rb as int) == rows[rows.len() - (m + 1)]);
            match place_row(&mut ship, &cs, ra, rb) {
                Ok(()) => {},
                Err(e) => {
                    proof {
                        assert(place_rows(Seq::new(n as nat, |i: int| Seq::<char>::empty()), rows, m as int + 1)
                            == Err::<Seq<Seq<char>>, CraneError>(e));
                        lemma_place_rows_fail(
                            Seq::new(n as nat, |i: int| Seq::<char>::empty()),
                            rows,
                            m as int + 1,
                            nrows as int,
                        );
                    }
                    return Err(e);
                },
            }
            m = m + 1;
        }
        Ok(ship)
    }
}

proof fn lemma_place_rows_fail(st: Seq<Seq<char>>, rows: Seq<Seq<char>>, k: int, n: int)
    requires
        0 <= k <= n,
        place_rows(st, rows, k) is Err,
    ensures
        place_rows(st, rows, n) == place_rows(st, rows, k),
    decreases n - k,
{
    if k < n {
        lemma_place_rows_fail(st, rows, k + 1, n);
    }
}

proof fn lemma_place_slots_fail(st: Seq<Seq<char>>, l: Seq<char>, k: int, n: int)
    requires
        0 <= k <= n,
        place_slots(st, l, k) is Err,
    ensures
        place_slots(st, l, n) == place_slots(st, l, k),
    decreases n - k,
{
    if k < n {
        lemma_place_slots_fail(st, l, k + 1, n);
    }
}

/// Puts the crates of the drawing line `cs[a..b]` on the stacks.
fn place_row(ship: &mut Ship, cs: &Vec<char>, a: usize, b: usize) -> (r: Result<(), CraneError>)
    requires
        a <= b <= cs.len(),
    ensures
        match place_slots(ship_view(old(ship)), cs@.subrange(a as int, b as int), slots(cs@.subrange(a as int, b as int))) {
            Ok(st) => r is Ok && ship_view(final(ship)) == st,
            Err(e) => r == Err::<(), CraneError>(e),
        },
{
    let ghost l = cs@.subrange(a as int, b as int);
    let ghost start = ship_view(ship);
    let len = b - a;
    let count = len / 4 + if len % 4 == 0 {
        0
    } else {
        1
    };
    assert(count == slots(l));
    let mut k: usize = 0;
    while k < count
        invariant
            a <= b <= cs.len(),
            l == cs@.subrange(a as int, b as int),
            len == b - a,
            count == slots(l),
            start == ship_view(old(ship)),
            k <= count,
            place_slots(start, l, k as int) == Ok::<Seq<Seq<char>>, CraneError>(ship_view(ship)),
        decreases count - k,
    {
        assert(4 * k < len) by (nonlinear_arith)
            requires
                k < count,
                count == (len + 3) / 4,
        ;
        let sa = a + 4 * k;
        let sb = if len - 4 * k >= 4 {
            a + 4 * k + 4
        } else {
            b
        };
        assert(cs@.subrange(sa as int, sb as int) =~= l.subrange(4 * k, sb - a));
        let found = letters_of(cs, sa, sb);
        assert(found@ == slot(l, k as int));
        assert(ship_view(ship).len() == ship.0@.len());
        if found.len() > 1 {
            proof {
                assert(place_slots(start, l, k as int + 1) == Err::<Seq<Seq<char>>, CraneError>(
                    CraneError::BadSlot,
                ));
                lemma_place_slots_fail(start, l, k as int + 1, count as int);
            }
            return Err(CraneError::BadSlot);
        }
        if found.len() == 1 {
            if k >= ship.0.len() {
                proof {
                    assert(place_slots(start, l, k as int + 1) == Err::<Seq<Seq<char>>, CraneError>(
                        CraneError::NoSuchStack,
                    ));
                    lemma_place_slots_fail(start, l, k as int + 1, count as int);
                }
                return Err(CraneError::NoSuchStack);
            }
            let ghost before = ship_view(ship);
            ship.0[k].0.push(found[0]);
            assert(ship_view(ship) =~= before.update(k as int, before[k as int].push(found@[0])));
        }
        k = k + 1;
    }
    Ok(())
}

/// The instruction a line `move a from b to c` stands for.
pub open spec fn instr_of(l: Seq<char>) -> Option<Instruction> {
    let ws = words(l);
    if ws.len() == 6 && ws[0] == seq!['m', 'o', 'v', 'e'] && ws[2] == seq!['f', 'r', 'o', 'm'] && ws[4]
        == seq!['t', 'o'] {
        match (
            parse_num(ws[1], usize::MAX as nat),
            parse_num(ws[3], usize::MAX as nat),
            parse_num(ws[5], usize::MAX as nat),
        ) {
            (Some(a), Some(b), Some(c)) => Some(Instruction { mv: a as usize, from: b as usize, to: c as usize }),
            _ => None,
        }
    } else {
        None
    }
}

/// The instructions of the lines `ls`, or `None` at a bad one.
pub open spec fn instrs_of(ls: Seq<Seq<char>>) -> Option<Seq<Instruction>>
    decreases ls.len(),
{
    if ls.len() == 0 {
        Some(Seq::empty())
    } else {
        match (instrs_of(ls.drop_last()), instr_of(ls.last())) {
            (Some(is), Some(i)) => Some(is.push(i)),
            _ => None,
        }
    }
}

/// Drawing and procedure of an input: its first two blank-line separated
/// parts.
pub open spec fn input_of(s: Seq<char>) -> Result<(Seq<Seq<char>>, Seq<Instruction>), CraneError> {
    let gs = groups(s);
    if gs.len() < 2 {
        Err(CraneError::NoParts)
    } else {
        match ship_of(gs[0]) {
            Err(e) => Err(e),
            Ok(st) => match instrs_of(lines(gs[1])) {
                None => Err(CraneError::BadInstruction),
                Some(is) => Ok((st, is)),
            },
        }
    }
}

fn word_is(cs: &Vec<char>, w: (usize, usize), lit: &str) -> (r: bool)
    requires
        w.0 <= w.1 <= cs.len(),
    ensures
        r == (cs@.subrange(w.0 as int, w.1 as int) == lit@),
{
    let lc = chars_of(lit);
    if w.1 - w.0 != lc.len() {
        assert(cs@.subrange(w.0 as int, w.1 as int).len() != lit@.len());
        return false;
    }
    let mut i: usize = 0;
    while i < lc.len()
        invariant
            w.0 <= w.1 <= cs.len(),
            w.1 - w.0 == lc.len(),
            lc@ == lit@,
            i <= lc.len(),
            forall|j: int| 0 <= j < i ==> cs@[w.0 + j] == lc@[j],
        decreases lc.len() - i,
    {
        if cs[w.0 + i] != lc[i] {
            assert(cs@.subrange(w.0 as int, w.1 as int)[i as int] != lit@[i as int]);
            return false;
        }
        i = i + 1;
    }
    assert(cs@.subrange(w.0 as int, w.1 as int) =~= lit@);
    true
}

impl Instruction {
    /// Reads a line `move a from b to c`.
    pub fn parse(s: &str) -> (r: Result<Instruction, CraneError>)
        ensures
            match instr_of(s@) {
                Some(i) => r == Ok::<Instruction, CraneError>(i),
                None => r == Err::<Instruction, CraneError>(CraneError::BadInstruction),
            },
    {
        proof {
            reveal_strlit("move");
            reveal_strlit("from");
            reveal_strlit("to");
        }
        assert("move"@ =~= seq!['m', 'o', 'v', 'e']);
        assert("from"@ =~= seq!['f', 'r', 'o', 'm']);
        assert("to"@ =~= seq!['t', 'o']);
        let cs = chars_of(s);
        assert(cs@.subrange(0, cs.len() as int) =~= cs@);
        let wb = word_bounds(&cs, 0, cs.len());
        if wb.len() != 6 {
            return Err(CraneError::BadInstruction);
        }
        if !(word_is(&cs, wb[0], "move") && word_is(&cs, wb[2], "from") && word_is(&cs, wb[4], "to")) {
            return Err(CraneError::BadInstruction);
        }
        let (a1, b1) = wb[1];
        let (a3, b3) = wb[3];
        let (a5, b5) = wb[5];
        match (
            parse_num_chars(&cs, a1, b1, usize::MAX as u64),
            parse_num_chars(&cs, a3, b3, usize::MAX as u64),
            parse_num_chars(&cs, a5, b5, usize::MAX as u64),
        ) {
            (Some(x), Some(y), Some(z)) => Ok(Instruction { mv: x as usize, from: y as usize, to: z as usize }),
            _ => Err(CraneError::BadInstruction),
        }
    }
}

proof fn lemma_instrs_fail(ls: Seq<Seq<char>>, i: int)
    requires
        0 <= i <= ls.len(),
        instrs_of(ls.take(i)) is None,
    ensures
        instrs_of(ls) is None,
    decreases ls.len() - i,
{
    if i < ls.len() {
        assert(ls.take(i + 1).drop_last() =~= ls.take(i));
        lemma_instrs_fail(ls, i + 1);
    } else {
        assert(ls.take(i) =~= ls);
    }
}

/// Reads the drawing and the procedure, which a blank line separates.
pub fn parse_input(input: &str) -> (r: Result<(Ship, Vec<Instruction>), CraneError>)
    ensures
        match input_of(input@) {
            Ok((st, is)) => r matches Ok((ship, v)) && ship_view(&ship) == st && v@ == is,
            Err(e) => r matches Err(x) && x == e,
        },
{
    let cs = chars_of(input);
    let gb = group_bounds(&cs);
    if gb.len() < 2 {
        return Err(CraneError::NoParts);
    }
    let (a0, b0) = gb[0];
    let (a1, b1) = gb[1];
    let ship = match Ship::parse(input.substring_char(a0, b0)) {
        Ok(ship) => ship,
        Err(e) => {
            return Err(e);
        },
    };
    let part = input.substring_char(a1, b1);
    let pc = chars_of(part);
    let lb = line_bounds(&pc);
    let ghost ls = lines(part@);
    let mut out: Vec<Instruction> = Vec::new();
    let mut i: usize = 0;
    assert(ls.take(0) =~= Seq::<Seq<char>>::empty());
    assert(input_of(input@) == match instrs_of(ls) {
        None => Err(CraneError::BadInstruction),
        Some(is) => Ok((ship_view(&ship), is)),
    });
    while i < lb.len()
        invariant
            input_of(input@) == match instrs_of(ls) {
                None => Err(CraneError::BadInstruction),
                Some(is) => Ok((ship_view(&ship), is)),
            },
            pc@ == part@,
            ls == lines(part@),
            lb.len() == ls.len(),
            forall|k: int|
                0 <= k < lb.len() ==> (#[trigger] lb[k]).0 <= lb[k].1 <= pc.len() && pc@.subrange(
                    lb[k].0 as int,
                    lb[k].1 as int,
                ) == ls[k],
            i <= lb.len(),
            instrs_of(ls.take(i as int)) == Some(out@),
        decreases lb.len() - i,
    {
        assert(ls.take(i + 1).drop_last() =~= ls.take(i as int));
        assert(ls.take(i + 1).last() == ls[i as int]);
        let (a, b) = lb[i];
        match Instruction::parse(part.substring_char(a, b)) {
            Ok(ins) => {
                out.push(ins);
            },
            Err(e) => {
                proof {
                    lemma_instrs_fail(ls, i as int + 1);
                }
                return Err(CraneError::BadInstruction);
            },
        }
        i = i + 1;
    }
    assert(ls.take(i as int) =~= ls);
    Ok((ship, out))
}

/// The stacks after one crate goes from stack `f` onto stack `t`; `None`
/// when stack `f` is empty.
pub open spec fn move_one(st: Seq<Seq<char>>, f: int, t: int) -> Option<Seq<Seq<char>>> {
    if st[f].len() == 0 {
        None
    } else {
        let s1 = st.update(f, st[f].drop_last());
        Some(s1.update(t, s1[t].push(st[f].last())))
    }
}

/// `n` crates moved one at a time.
pub open spec fn move_n(st: Seq<Seq<char>>, f: int, t: int, n: nat) -> Option<Seq<Seq<char>>>
    decreases n,
{
    if n == 0 {
        Some(st)
    } else {
        match move_n(st, f, t, (n - 1) as nat) {
            None => None,
            Some(s) => move_one(s, f, t),
        }
    }
}

pub open spec fn names_stacks(st: Seq<Seq<char>>, ins: Instruction) -> bool {
    1 <= ins.from <= st.len() && 1 <= ins.to <= st.len()
}

/// One instruction for a crane that lifts one crate at a time.
pub open spec fn step_single(st: Seq<Seq<char>>, ins: Instruction) -> Result<Seq<Seq<char>>, CraneError> {
    if !names_stacks(st, ins) {
        Err(CraneError::NoSuchStack)
    } else {
        match move_n(st, ins.from - 1, ins.to - 1, ins.mv as nat) {
            None => Err(CraneError::EmptyStack),
            Some(s) => Ok(s),
        }
    }
}

/// One instruction for a crane that lifts the crates together, keeping
/// their order.
pub open spec fn step_block(st: Seq<Seq<char>>, ins: Instruction) -> Result<Seq<Seq<char>>, CraneError> {
    if !names_stacks(st, ins) {
        Err(CraneError::NoSuchStack)
    } else {
        let f = ins.from - 1;
        let t = ins.to - 1;
        let src = st[f];
        if ins.mv > src.len() {
            Err(CraneError::EmptyStack)
        } else {
            let cut = src.len() - ins.mv;
            let s1 = st.update(f, src.take(cut));
            Ok(s1.update(t, s1[t] + src.skip(cut)))
        }
    }
}

/// The stacks after the whole procedure, with the crane `block` or not.
pub open spec fn run_crane(st: Seq<Seq<char>>, is: Seq<Instruction>, block: bool) -> Result<Seq<Seq<char>>, CraneError>
    decreases is.len(),
{
    if is.len() == 0 {
        Ok(st)
    } else {
        match run_crane(st, is.drop_last(), block) {
            Err(e) => Err(e),
            Ok(s) => if block {
                step_block(s, is.last())
            } else {
                step_single(s, is.last())
            },
        }
    }
}

/// The crate on top of each stack; `None` when a stack is empty.
pub open spec fn tops(st: Seq<Seq<char>>) -> Option<Seq<char>> {
    if forall|i: int| 0 <= i < st.len() ==> (#[trigger] st[i]).len() > 0 {
        Some(st.map_values(|s: Seq<char>| s.last()))
    } else {
        None
    }
}

proof fn lemma_move_n_fails(st: Seq<Seq<char>>, f: int, t: int, k: nat, n: nat)
    requires
        k <= n,
        move_n(st, f, t, k) is None,
    ensures
        move_n(st, f, t, n) is None,
    decreases n - k,
{
    if k < n {
        lemma_move_n_fails(st, f, t, k + 1, n);
    }
}

proof fn lemma_run_fails(st: Seq<Seq<char>>, is: Seq<Instruction>, block: bool, i: int)
    requires
        0 <= i <= is.len(),
        run_crane(st, is.take(i), block) is Err,
    ensures
        run_crane(st, is, block) == run_crane(st, is.take(i), block),
    decreases is.len() - i,
{
    if i < is.len() {
        assert(is.take(i + 1).drop_last() =~= is.take(i));
        lemma_run_fails(st, is, block, i + 1);
    } else {
        assert(is.take(i) =~= is);
    }
}

/// Carries out one instruction on `ship`.
fn apply_instruction(ship: &mut Ship, ins: Instruction, block: bool) -> (r: Result<(), CraneError>)
    ensures
        match (if block {
            step_block(ship_view(old(ship)), ins)
        } else {
            step_single(ship_view(old(ship)), ins)
        }) {
            Ok(st) => r is Ok && ship_view(final(ship)) == st,
            Err(e) => r == Err::<(), CraneError>(e),
        },
{
    let ghost st = ship_view(ship);
    let n = ship.0.len();
    if ins.from == 0 || ins.to == 0 || ins.from > n || ins.to > n {
        return Err(CraneError::NoSuchStack);
    }
    let f = ins.from - 1;
    let t = ins.to - 1;
    if block {
        let len = ship.0[f].0.len();
        assert(st[f as int] == ship.0@[f as int].0@);
        if ins.mv > len {
            return Err(CraneError::EmptyStack);
        }
        let cut = len - ins.mv;
        let mut moved = ship.0[f].0.split_off(cut);
        let ghost s1 = ship_view(ship);
        assert(s1 =~= st.update(f as int, st[f as int].take(cut as int)));
        ship.0[t].0.append(&mut moved);
        assert(ship_view(ship) =~= s1.update(t as int, s1[t as int] + st[f as int].skip(cut as int)));
        Ok(())
    } else {
        let mut k: usize = 0;
        while k < ins.mv
            invariant
                n == ship.0.len(),
                f < n,
                t < n,
                f == ins.from - 1,
                t == ins.to - 1,
                st == ship_view(old(ship)),
                names_stacks(st, ins),
                !block,
                k <= ins.mv,
                move_n(st, f as int, t as int, k as nat) == Some(ship_view(ship)),
            decreases ins.mv - k,
        {
            let ghost before = ship_view(ship);
            assert(before[f as int] == ship.0@[f as int].0@);
            match ship.0[f].0.pop() {
                None => {
                    proof {
                        assert(move_n(st, f as int, t as int, (k + 1) as nat) is None);
                        lemma_move_n_fails(st, f as int, t as int, (k + 1) as nat, ins.mv as nat);
                    }
                    return Err(CraneError::EmptyStack);
                },
                Some(c) => {
                    let ghost s1 = ship_view(ship);
                    assert(s1 =~= before.update(f as int, before[f as int].drop_last()));
                    ship.0[t].0.push(c);
                    assert(ship_view(ship) =~= s1.update(t as int, s1[t as int].push(c)));
                },
            }
            k = k + 1;
        }
        Ok(())
    }
}

fn run_procedure(ship: &mut Ship, instructions: &Vec<Instruction>, block: bool) -> (r: Result<Vec<char>, CraneError>)
    ensures
        match run_crane(ship_view(old(ship)), instructions@, block) {
            Err(e) => r matches Err(x) && x == e,
            Ok(st) => ship_view(final(ship)) == st && match tops(st) {
                None => r matches Err(x) && x == CraneError::EmptyStack,
                Some(t) => r matches Ok(v) && v@ == t,
            },
        },
{
    let ghost st0 = ship_view(ship);
    let mut i: usize = 0;
    assert(instructions@.take(0) =~= Seq::<Instruction>::empty());
    while i < instructions.len()
        invariant
            st0 == ship_view(old(ship)),
            i <= instructions.len(),
            run_crane(st0, instructions@.take(i as int), block) == Ok::<Seq<Seq<char>>, CraneError>(
                ship_view(ship),
            ),
        decreases instructions.len() - i,
    {
        assert(instructions@.take(i + 1).drop_last() =~= instructions@.take(i as int));
        assert(instructions@.take(i + 1).last() == instructions[i as int]);
        match apply_instruction(ship, instructions[i], block) {
            Ok(()) => {},
            Err(e) => {
                proof {
                    lemma_run_fails(st0, instructions@, block, i + 1);
                }
                return Err(e);
            },
        }
        i = i + 1;
    }
    assert(instructions@.take(i as int) =~= instructions@);
    let ghost st = ship_view(ship);
    let mut out: Vec<char> = Vec::new();
    let mut k: usize = 0;
    while k < ship.0.len()
        invariant
            st == ship_view(ship),
            st0 == ship_view(old(ship)),
            run_crane(st0, instructions@, block) == Ok::<Seq<Seq<char>>, CraneError>(st),
            k <= ship.0.len(),
            forall|j: int| 0 <= j < k ==> (#[trigger] st[j]).len() > 0,
            out@ == st.take(k as int).map_values(|s: Seq<char>| s.last()),
        decreases ship.0.len() - k,
    {
        assert(st[k as int] == ship.0@[k as int].0@);
        let n = ship.0[k].0.len();
        if n == 0 {
            assert(st[k as int].len() == 0);
            return Err(CraneError::EmptyStack);
        }
        out.push(ship.0[k].0[n - 1]);
        k = k + 1;
        assert(out@ =~= st.take(k as int).map_values(|s: Seq<char>| s.last()));
    }
    assert(st.take(k as int) =~= st);
    Ok(out)
}

/// The top crates after the procedure, with a crane that lifts one crate at
/// a time.
pub fn part1(ship: &mut Ship, instructions: &Vec<Instruction>) -> (r: Result<Vec<char>, CraneError>)
    ensures
        match run_crane(ship_view(old(ship)), instructions@, false) {
            Err(e) => r matches Err(x) && x == e,
            Ok(st) => ship_view(final(ship)) == st && match tops(st) {
                None => r matches Err(x) && x == CraneError::EmptyStack,
                Some(t) => r matches Ok(v) && v@ == t,
            },
        },
{
    run_procedure(ship, instructions, false)
}

/// The top crates after the procedure, with a crane that lifts several
/// crates at once.
pub fn part2(ship: &mut Ship, instructions: &Vec<Instruction>) -> (r: Result<Vec<char>, CraneError>)
    ensures
        match run_crane(ship_view(old(ship)), instructions@, true) {
            Err(e) => r matches Err(x) && x == e,
            Ok(st) => ship_view(final(ship)) == st && match tops(st) {
                None => r matches Err(x) && x == CraneError::EmptyStack,
                Some(t) => r matches Ok(v) && v@ == t,
            },
        },
{
    run_procedure(ship, instructions, true)
}

} // verus!
