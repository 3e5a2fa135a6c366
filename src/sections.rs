use vstd::prelude::*;
use crate::transcript::{chars_of, line_bounds, lines, parse_num, parse_num_chars};

verus! {

/// Pieces finished so far, and the piece being read, after reading `s` and
/// cutting at each `sep`.
pub open spec fn scan_split(s: Seq<char>, sep: char) -> (Seq<Seq<char>>, Seq<char>)
    decreases s.len(),
{
    if s.len() == 0 {
        (Seq::empty(), Seq::empty())
    } else {
        let (ps, cur) = scan_split(s.drop_last(), sep);
        if s.last() == sep {
            (ps.push(cur), Seq::empty())
        } else {
            (ps, cur.push(s.last()))
        }
    }
}

/// `s` cut at each `sep`, as `str::split` does with a character.
pub open spec fn pieces(s: Seq<char>, sep: char) -> Seq<Seq<char>> {
    scan_split(s, sep).0.push(scan_split(s, sep).1)
}

/// Bounds in `cs` of the pieces of `cs[a..b]` cut at `sep`.
fn split_bounds(cs: &Vec<char>, a: usize, b: usize, sep: char) -> (r: Vec<(usize, usize)>)
    requires
        a <= b <= cs.len(),
    ensures
        r.len() == pieces(cs@.subrange(a as int, b as int), sep).len(),
        forall|k: int|
            0 <= k < r.len() ==> a <= (#[trigger] r[k]).0 <= r[k].1 <= b && cs@.subrange(
                r[k].0 as int,
                r[k].1 as int,
            ) == pieces(cs@.subrange(a as int, b as int), sep)[k],
{
    let mut out: Vec<(usize, usize)> = Vec::new();
    let mut start: usize = a;
    let mut i: usize = a;
    while i < b
        invariant
            a <= start <= i <= b <= cs.len(),
            out.len() == scan_split(cs@.subrange(a as int, i as int), sep).0.len(),
            scan_split(cs@.subrange(a as int, i as int), sep).1 == cs@.subrange(start as int, i as int),
            forall|k: int|
                0 <= k < out.len() ==> a <= (#[trigger] out[k]).0 <= out[k].1 <= i && cs@.subrange(
                    out[k].0 as int,
                    out[k].1 as int,
                ) == scan_split(cs@.subrange(a as int, i as int), sep).0[k],
        decreases b - i,
    {
        let ghost before = cs@.subrange(a as int, i as int);
        let ghost after = cs@.subrange(a as int, i + 1);
        assert(after.drop_last() =~= before);
        assert(after.last() == cs@[i as int]);
        let c = cs[i];
        if c == sep {
            out.push((start, i));
            start = i + 1;
            assert(cs@.subrange(start as int, i + 1) =~= Seq::<char>::empty());
        } else {
            assert(cs@.subrange(start as int, i + 1) =~= cs@.subrange(start as int, i as int).push(c));
        }
        i = i + 1;
    }
    out.push((start, b));
    out
}

/// The section IDs `start..=end` (none when `start > end`).
#[derive(PartialEq, Eq, Structural, Clone, Copy, Debug)]
pub struct Section {
    pub start: usize,
    pub end: usize,
}

/// Two elves' assignments.
#[derive(PartialEq, Eq, Structural, Clone, Copy, Debug)]
pub struct ElfPair(pub Section, pub Section);

/// Why an assignment could not be read.
#[derive(PartialEq, Eq, Structural, Clone, Copy, Debug)]
pub enum SectionError {
    /// A range is not two numbers joined by `-`.
    BadSection,
    /// A line is not two ranges joined by `,`.
    BadPair,
}

impl Section {
    pub open spec fn members(self) -> Set<usize> {
        Set::new(|x: usize| self.start <= x <= self.end)
    }

    /// The IDs of the section, in increasing order.
    pub fn ids(&self) -> (r: Vec<usize>)
        ensures
            r@.to_set() == self.members(),
            forall|i: int| 0 <= i < r.len() ==> r[i] == self.start + i,
    {
        let mut out: Vec<usize> = Vec::new();
        if self.start > self.end {
            assert(out@.to_set() =~= self.members());
            return out;
        }
        let mut x: usize = self.start;
        loop
            invariant_except_break
                out.len() == x - self.start,
            invariant
                self.start <= x <= self.end,
                forall|i: int| 0 <= i < out.len() ==> out[i] == self.start + i,
            ensures
                out.len() == self.end - self.start + 1,
            decreases self.end - x,
        {
            out.push(x);
            if x == self.end {
                break;
            }
            x = x + 1;
        }
        assert forall|y: usize| #[trigger] out@.to_set().contains(y) <==> self.members().contains(y) by {
            if self.members().contains(y) {
                assert(out@[y - self.start] == y);
            }
            if out@.to_set().contains(y) {
                let i = choose|i: int| 0 <= i < out@.len() && out@[i] == y;
                assert(out@[i] == self.start + i);
            }
        }
        assert(out@.to_set() =~= self.members());
        out
    }
}

/// The section a range `a-b` stands for.
pub open spec fn section_of(s: Seq<char>) -> Option<Section> {
    let ps = pieces(s, '-');
    if ps.len() < 2 {
        None
    } else {
        match (parse_num(ps[0], usize::MAX as nat), parse_num(ps[1], usize::MAX as nat)) {
            (Some(x), Some(y)) => Some(Section { start: x as usize, end: y as usize }),
            _ => None,
        }
    }
}

/// The pair a line `a-b,c-d` stands for.
pub open spec fn pair_of(s: Seq<char>) -> Result<ElfPair, SectionError> {
    let ps = pieces(s, ',');
    if ps.len() < 2 {
        Err(SectionError::BadPair)
    } else {
        match (section_of(ps[0]), section_of(ps[1])) {
            (Some(x), Some(y)) => Ok(ElfPair(x, y)),
            _ => Err(SectionError::BadSection),
        }
    }
}

/// The pairs of an assignment list, or the error of its first bad line.
pub open spec fn pairs_of(ls: Seq<Seq<char>>) -> Result<Seq<ElfPair>, SectionError>
    decreases ls.len(),
{
    if ls.len() == 0 {
        Ok(Seq::empty())
    } else {
        match pairs_of(ls.drop_last()) {
            Err(e) => Err(e),
            Ok(ps) => match pair_of(ls.last()) {
                Err(e) => Err(e),
                Ok(p) => Ok(ps.push(p)),
            },
        }
    }
}

/// The section that `cs[a..b]` stands for.
fn parse_section(cs: &Vec<char>, a: usize, b: usize) -> (r: Option<Section>)
    requires
        a <= b <= cs.len(),
    ensures
        r == section_of(cs@.subrange(a as int, b as int)),
{
    let pb = split_bounds(cs, a, b, '-');
    if pb.len() < 2 {
        return None;
    }
    let (a0, b0) = pb[0];
    let (a1, b1) = pb[1];
    match (
        parse_num_chars(cs, a0, b0, usize::MAX as u64),
        parse_num_chars(cs, a1, b1, usize::MAX as u64),
    ) {
        (Some(x), Some(y)) => Some(Section { start: x as usize, end: y as usize }),
        _ => None,
    }
}

/// The pair that `cs[a..b]` stands for.
fn parse_pair(cs: &Vec<char>, a: usize, b: usize) -> (r: Result<ElfPair, SectionError>)
    requires
        a <= b <= cs.len(),
    ensures
        r == pair_of(cs@.subrange(a as int, b as int)),
{
    let pb = split_bounds(cs, a, b, ',');
    if pb.len() < 2 {
        return Err(SectionError::BadPair);
    }
    let (a0, b0) = pb[0];
    let (a1, b1) = pb[1];
    match (parse_section(cs, a0, b0), parse_section(cs, a1, b1)) {
        (Some(x), Some(y)) => Ok(ElfPair(x, y)),
        _ => Err(SectionError::BadSection),
    }
}

impl Section {
    /// Reads a range `a-b`.
    pub fn parse(s: &str) -> (r: Result<Section, SectionError>)
        ensures
            match section_of(s@) {
                Some(x) => r == Ok::<Section, SectionError>(x),
                None => r == Err::<Section, SectionError>(SectionError::BadSection),
            },
    {
        let cs = chars_of(s);
        assert(cs@.subrange(0, cs.len() as int) =~= cs@);
        match parse_section(&cs, 0, cs.len()) {
            Some(x) => Ok(x),
            None => Err(SectionError::BadSection),
        }
    }
}

impl ElfPair {
    /// Reads a line `a-b,c-d`.
    pub fn parse(s: &str) -> (r: Result<ElfPair, SectionError>)
        ensures
            r == pair_of(s@),
    {
        let cs = chars_of(s);
        assert(cs@.subrange(0, cs.len() as int) =~= cs@);
        parse_pair(&cs, 0, cs.len())
    }

    /// One assignment holds the other.
    pub fn duplicated_effort(&self) -> (r: bool)
        ensures
            r == (self.0.members().subset_of(self.1.members()) || self.1.members().subset_of(
                self.0.members(),
            )),
    {
        proof {
            lemma_subset(self.0, self.1);
            lemma_subset(self.1, self.0);
        }
        contains(&self.1, &self.0) || contains(&self.0, &self.1)
    }

    /// The assignments share a section.
    pub fn partial_overlaps(&self) -> (r: bool)
        ensures
            r == !self.0.members().disjoint(self.1.members()),
    {
        let a = self.0;
        let b = self.1;
        let lo = if a.start > b.start {
            a.start
        } else {
            b.start
        };
        let hi = if a.end < b.end {
            a.end
        } else {
            b.end
        };
        let r = a.start <= a.end && b.start <= b.end && lo <= hi;
        proof {
            if r {
                assert(a.members().contains(lo) && b.members().contains(lo));
            } else {
                assert forall|x: usize| a.members().contains(x) implies !b.members().contains(x) by {}
            }
        }
        r
    }
}

/// `outer` holds every ID of `inner`.
fn contains(outer: &Section, inner: &Section) -> (r: bool)
    ensures
        r == (inner.start > inner.end || (outer.start <= inner.start && inner.end <= outer.end)),
{
    inner.start > inner.end || (outer.start <= inner.start && inner.end <= outer.end)
}

proof fn lemma_subset(inner: Section, outer: Section)
    ensures
        inner.members().subset_of(outer.members()) <==> (inner.start > inner.end || (outer.start
            <= inner.start && inner.end <= outer.end)),
{
    if inner.start <= inner.end && !(outer.start <= inner.start && inner.end <= outer.end) {
        if outer.start > inner.start {
            assert(inner.members().contains(inner.start));
        } else {
            assert(inner.members().contains(inner.end));
        }
    }
}

/// The pairs of the assignment list `input`, one per line.
pub fn parse_pairs(input: &str) -> (r: Result<Vec<ElfPair>, SectionError>)
    ensures
        match pairs_of(lines(input@)) {
            Ok(ps) => r matches Ok(v) && v@ == ps,
            Err(e) => r == Err::<Vec<ElfPair>, SectionError>(e),
        },
{
    let cs = chars_of(input);
    let bounds = line_bounds(&cs);
    let ghost ls = lines(input@);
    let mut out: Vec<ElfPair> = Vec::new();
    let mut i: usize = 0;
    assert(ls.take(0) =~= Seq::<Seq<char>>::empty());
    while i < bounds.len()
        invariant
            cs@ == input@,
            ls == lines(input@),
            bounds.len() == ls.len(),
            forall|k: int|
                0 <= k < bounds.len() ==> (#[trigger] bounds[k]).0 <= bounds[k].1 <= cs.len()
                    && cs@.subrange(bounds[k].0 as int, bounds[k].1 as int) == ls[k],
            i <= bounds.len(),
            pairs_of(ls.take(i as int)) == Ok::<Seq<ElfPair>, SectionError>(out@),
        decreases bounds.len() - i,
    {
        assert(ls.take(i + 1).drop_last() =~= ls.take(i as int));
        assert(ls.take(i + 1).last() == ls[i as int]);
        let (a, b) = bounds[i];
        match parse_pair(&cs, a, b) {
            Ok(p) => {
                out.push(p);
            },
            Err(e) => {
                proof {
                    lemma_pairs_fail(ls, i as int + 1);
                }
                return Err(e);
            },
        }
        i = i + 1;
    }
    assert(ls.take(i as int) =~= ls);
    Ok(out)
}

proof fn lemma_pairs_fail(ls: Seq<Seq<char>>, i: int)
    requires
        0 <= i <= ls.len(),
        pairs_of(ls.take(i)) is Err,
    ensures
        pairs_of(ls) == pairs_of(ls.take(i)),
    decreases ls.len() - i,
{
    if i < ls.len() {
        assert(ls.take(i + 1).drop_last() =~= ls.take(i));
        lemma_pairs_fail(ls, i + 1);
    } else {
        assert(ls.take(i) =~= ls);
    }
}

/// How many of `ps` satisfy `keep`.
pub open spec fn count(ps: Seq<ElfPair>, keep: spec_fn(ElfPair) -> bool) -> nat
    decreases ps.len(),
{
    if ps.len() == 0 {
        0
    } else {
        count(ps.drop_last(), keep) + if keep(ps.last()) {
            1nat
        } else {
            0
        }
    }
}

pub open spec fn one_holds_other(p: ElfPair) -> bool {
    p.0.members().subset_of(p.1.members()) || p.1.members().subset_of(p.0.members())
}

pub open spec fn overlapping(p: ElfPair) -> bool {
    !p.0.members().disjoint(p.1.members())
}

/// How many pairs have one assignment holding the other.
pub fn part1(elfpairs: &Vec<ElfPair>) -> (r: usize)
    ensures
        r == count(elfpairs@, |p: ElfPair| one_holds_other(p)),
{
    let mut n: usize = 0;
    let mut i: usize = 0;
    assert(elfpairs@.take(0) =~= Seq::<ElfPair>::empty());
    while i < elfpairs.len()
        invariant
            i <= elfpairs.len(),
            n <= i,
            n == count(elfpairs@.take(i as int), |p: ElfPair| one_holds_other(p)),
        decreases elfpairs.len() - i,
    {
        assert(elfpairs@.take(i + 1).drop_last() =~= elfpairs@.take(i as int));
        assert(elfpairs@.take(i + 1).last() == elfpairs[i as int]);
        if elfpairs[i].duplicated_effort() {
            n = n + 1;
        }
        i = i + 1;
    }
    assert(elfpairs@.take(i as int) =~= elfpairs@);
    n
}

/// How many pairs share a section.
pub fn part2(elfpairs: &Vec<ElfPair>) -> (r: usize)
    ensures
        r == count(elfpairs@, |p: ElfPair| overlapping(p)),
{
    let mut n: usize = 0;
    let mut i: usize = 0;
    assert(elfpairs@.take(0) =~= Seq::<ElfPair>::empty());
    while i < elfpairs.len()
        invariant
            i <= elfpairs.len(),
            n <= i,
            n == count(elfpairs@.take(i as int), |p: ElfPair| overlapping(p)),
        decreases elfpairs.len() - i,
    {
        assert(elfpairs@.take(i + 1).drop_last() =~= elfpairs@.take(i as int));
        assert(elfpairs@.take(i + 1).last() == elfpairs[i as int]);
        if elfpairs[i].partial_overlaps() {
            n = n + 1;
        }
        i = i + 1;
    }
    assert(elfpairs@.take(i as int) =~= elfpairs@);
    n
}

} // verus!
