use vstd::prelude::*;
use crate::transcript::{chars_of, lines, line_bounds, parse_u32, parse_u32_chars};

verus! {

/// Pieces finished so far, and the piece being read, after reading `s` and
/// cutting at each blank line (two line feeds in a row).
pub open spec fn scan_groups(s: Seq<char>) -> (Seq<Seq<char>>, Seq<char>)
    decreases s.len(),
{
    if s.len() == 0 {
        (Seq::empty(), Seq::empty())
    } else {
        let (gs, cur) = scan_groups(s.drop_last());
        if s.last() == '\n' && cur.len() > 0 && cur.last() == '\n' {
            (gs.push(cur.drop_last()), Seq::empty())
        } else {
            (gs, cur.push(s.last()))
        }
    }
}

/// `s` split at each `"\n\n"`, as `str::split("\n\n")` does: the last piece
/// is kept even when empty.
pub open spec fn groups(s: Seq<char>) -> Seq<Seq<char>> {
    scan_groups(s).0.push(scan_groups(s).1)
}

/// Sum of the numbers on the lines `ls`: `None` when a line is no number
/// or the sum does not fit in 32 bits.
pub open spec fn sum_lines(ls: Seq<Seq<char>>) -> Option<u32>
    decreases ls.len(),
{
    if ls.len() == 0 {
        Some(0)
    } else {
        match (sum_lines(ls.drop_last()), parse_u32(ls.last())) {
            (Some(a), Some(b)) => if a + b <= u32::MAX {
                Some((a + b) as u32)
            } else {
                None
            },
            _ => None,
        }
    }
}

/// Totals of all groups, `None` when one of them has none.
pub open spec fn totals(gs: Seq<Seq<char>>) -> Option<Seq<u32>>
    decreases gs.len(),
{
    if gs.len() == 0 {
        Some(Seq::empty())
    } else {
        match (totals(gs.drop_last()), sum_lines(lines(gs.last()))) {
            (Some(t), Some(x)) => Some(t.push(x)),
            _ => None,
        }
    }
}

/// Why an inventory could not be read.
#[derive(PartialEq, Eq, Structural, Clone, Copy, Debug)]
pub enum CaloriesError {
    /// A line is no number, or a total does not fit in 32 bits.
    Unreadable,
    /// There is no elf.
    Empty,
}

/// The copy of `cs[a..b]`.
fn slice_copy(cs: &Vec<char>, a: usize, b: usize) -> (r: Vec<char>)
    requires
        a <= b <= cs.len(),
    ensures
        r@ == cs@.subrange(a as int, b as int),
{
    let mut out: Vec<char> = Vec::new();
    let mut i: usize = a;
    while i < b
        invariant
            a <= i <= b <= cs.len(),
            out@ == cs@.subrange(a as int, i as int),
        decreases b - i,
    {
        out.push(cs[i]);
        i = i + 1;
        assert(out@ =~= cs@.subrange(a as int, i as int));
    }
    out
}

/// Sum of the numbers on the lines of `g`.
fn sum_group(g: &Vec<char>) -> (r: Option<u32>)
    ensures
        r == sum_lines(lines(g@)),
{
    let bounds = line_bounds(g);
    let ghost ls = lines(g@);
    let mut sum: u32 = 0;
    let mut i: usize = 0;
    assert(ls.take(0) =~= Seq::<Seq<char>>::empty());
    while i < bounds.len()
        invariant
            bounds.len() == ls.len(),
            ls == lines(g@),
            forall|k: int|
                0 <= k < bounds.len() ==> (#[trigger] bounds[k]).0 <= bounds[k].1 <= g.len()
                    && g@.subrange(bounds[k].0 as int, bounds[k].1 as int) == ls[k],
            i <= bounds.len(),
            sum_lines(ls.take(i as int)) == Some(sum),
        decreases bounds.len() - i,
    {
        assert(ls.take(i + 1).drop_last() =~= ls.take(i as int));
        assert(ls.take(i + 1).last() == ls[i as int]);
        let (a, b) = bounds[i];
        match parse_u32_chars(g, a, b) {
            None => {
                proof {
                    lemma_sum_lines_fails(ls, i as int + 1);
                }
                return None;
            },
            Some(x) => {
                if sum > u32::MAX - x {
                    proof {
                        lemma_sum_lines_fails(ls, i as int + 1);
                    }
                    return None;
                }
                sum = sum + x;
            },
        }
        i = i + 1;
    }
    assert(ls.take(i as int) =~= ls);
    Some(sum)
}

proof fn lemma_sum_lines_fails(ls: Seq<Seq<char>>, i: int)
    requires
        0 <= i <= ls.len(),
        sum_lines(ls.take(i)) is None,
    ensures
        sum_lines(ls) is None,
    decreases ls.len() - i,
{
    if i < ls.len() {
        assert(ls.take(i + 1).drop_last() =~= ls.take(i));
        lemma_sum_lines_fails(ls, i + 1);
    } else {
        assert(ls.take(i) =~= ls);
    }
}

proof fn lemma_totals_fail(gs: Seq<Seq<char>>, i: int)
    requires
        0 <= i <= gs.len(),
        totals(gs.take(i)) is None,
    ensures
        totals(gs) is None,
    decreases gs.len() - i,
{
    if i < gs.len() {
        assert(gs.take(i + 1).drop_last() =~= gs.take(i));
        lemma_totals_fail(gs, i + 1);
    } else {
        assert(gs.take(i) =~= gs);
    }
}

/// Bounds in `cs` of the groups of `cs`.
pub fn group_bounds(cs: &Vec<char>) -> (r: Vec<(usize, usize)>)
    ensures
        r.len() == groups(cs@).len(),
        forall|k: int|
            0 <= k < r.len() ==> (#[trigger] r[k]).0 <= r[k].1 <= cs.len() && cs@.subrange(
                r[k].0 as int,
                r[k].1 as int,
            ) == groups(cs@)[k],
{
    let mut out: Vec<(usize, usize)> = Vec::new();
    let mut start: usize = 0;
    let mut i: usize = 0;
    let n = cs.len();
    while i < n
        invariant
            start <= i <= n == cs.len(),
            out.len() == scan_groups(cs@.subrange(0, i as int)).0.len(),
            scan_groups(cs@.subrange(0, i as int)).1 == cs@.subrange(start as int, i as int),
            forall|k: int|
                0 <= k < out.len() ==> (#[trigger] out[k]).0 <= out[k].1 <= i && cs@.subrange(
                    out[k].0 as int,
                    out[k].1 as int,
                ) == scan_groups(cs@.subrange(0, i as int)).0[k],
        decreases n - i,
    {
        let ghost before = cs@.subrange(0, i as int);
        let ghost after = cs@.subrange(0, i + 1);
        assert(after.drop_last() =~= before);
        assert(after.last() == cs@[i as int]);
        let c = cs[i];
        if c == '\n' && start < i && cs[i - 1] == '\n' {
            assert(cs@.subrange(start as int, i - 1) =~= cs@.subrange(start as int, i as int).drop_last());
            out.push((start, i - 1));
            start = i + 1;
            assert(cs@.subrange(start as int, i + 1) =~= Seq::<char>::empty());
        } else {
            assert(cs@.subrange(start as int, i + 1) =~= cs@.subrange(start as int, i as int).push(c));
        }
        i = i + 1;
    }
    assert(cs@.subrange(0, n as int) =~= cs@);
    out.push((start, n));
    out
}

/// The calories each elf carries: one total per group of lines, groups
/// being separated by a blank line.
pub fn parse_input(input: &str) -> (r: Result<Vec<u32>, CaloriesError>)
    ensures
        match totals(groups(input@)) {
            Some(t) => r matches Ok(v) && v@ == t,
            None => r == Err::<Vec<u32>, CaloriesError>(CaloriesError::Unreadable),
        },
{
    let cs = chars_of(input);
    let bounds = group_bounds(&cs);
    let ghost gs = groups(input@);
    let mut out: Vec<u32> = Vec::new();
    let mut i: usize = 0;
    assert(gs.take(0) =~= Seq::<Seq<char>>::empty());
    while i < bounds.len()
        invariant
            cs@ == input@,
            gs == groups(input@),
            bounds.len() == gs.len(),
            forall|k: int|
                0 <= k < bounds.len() ==> (#[trigger] bounds[k]).0 <= bounds[k].1 <= cs.len()
                    && cs@.subrange(bounds[k].0 as int, bounds[k].1 as int) == gs[k],
            i <= bounds.len(),
            totals(gs.take(i as int)) == Some(out@),
        decreases bounds.len() - i,
    {
        assert(gs.take(i + 1).drop_last() =~= gs.take(i as int));
        assert(gs.take(i + 1).last() == gs[i as int]);
        let (a, b) = bounds[i];
        let g = slice_copy(&cs, a, b);
        match sum_group(&g) {
            None => {
                proof {
                    lemma_totals_fail(gs, i as int + 1);
                }
                return Err(CaloriesError::Unreadable);
            },
            Some(x) => {
                out.push(x);
            },
        }
        i = i + 1;
    }
    assert(gs.take(i as int) =~= gs);
    Ok(out)
}

/// The three largest values seen, largest first, after `x` is seen.
pub open spec fn insert3(t: (nat, nat, nat), x: nat) -> (nat, nat, nat) {
    if x > t.0 {
        (x, t.0, t.1)
    } else if x > t.1 {
        (t.0, x, t.1)
    } else if x > t.2 {
        (t.0, t.1, x)
    } else {
        t
    }
}

/// The three largest values of `s`, largest first; zero stands in for
/// missing ones.
pub open spec fn top3(s: Seq<u32>) -> (nat, nat, nat)
    decreases s.len(),
{
    if s.len() == 0 {
        (0, 0, 0)
    } else {
        insert3(top3(s.drop_last()), s.last() as nat)
    }
}

/// The largest total.
pub fn part1(parsed: &Vec<u32>) -> (r: Result<u32, CaloriesError>)
    ensures
        parsed.len() == 0 <==> r is Err,
        r is Err ==> r == Err::<u32, CaloriesError>(CaloriesError::Empty),
        r matches Ok(m) ==> (exists|i: int| 0 <= i < parsed.len() && parsed[i] == m) && forall|i: int|
            0 <= i < parsed.len() ==> parsed[i] <= m,
{
    if parsed.len() == 0 {
        return Err(CaloriesError::Empty);
    }
    let mut best: u32 = parsed[0];
    let mut at: usize = 0;
    let mut i: usize = 1;
    while i < parsed.len()
        invariant
            1 <= i <= parsed.len(),
            at < i,
            parsed[at as int] == best,
            forall|j: int| 0 <= j < i ==> parsed[j] <= best,
        decreases parsed.len() - i,
    {
        if parsed[i] > best {
            best = parsed[i];
            at = i;
        }
        i = i + 1;
    }
    Ok(best)
}

/// Sum of the three largest totals (of all of them, when there are fewer).
pub fn part2(parsed: &Vec<u32>) -> (r: u64)
    ensures
        r == top3(parsed@).0 + top3(parsed@).1 + top3(parsed@).2,
{
    let mut a: u32 = 0;
    let mut b: u32 = 0;
    let mut c: u32 = 0;
    let mut i: usize = 0;
    assert(parsed@.take(0) =~= Seq::<u32>::empty());
    while i < parsed.len()
        invariant
            i <= parsed.len(),
            top3(parsed@.take(i as int)) == (a as nat, b as nat, c as nat),
        decreases parsed.len() - i,
    {
        assert(parsed@.take(i + 1).drop_last() =~= parsed@.take(i as int));
        assert(parsed@.take(i + 1).last() == parsed[i as int]);
        let x = parsed[i];
        if x > a {
            c = b;
            b = a;
            a = x;
        } else if x > b {
            c = b;
            b = x;
        } else if x > c {
            c = x;
        }
        i = i + 1;
    }
    assert(parsed@.take(i as int) =~= parsed@);
    a as u64 + b as u64 + c as u64
}

} // verus!
