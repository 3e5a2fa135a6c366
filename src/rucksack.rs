use vstd::prelude::*;
use crate::transcript::{chars_of, line_bounds, lines};

verus! {

/// Priority of an item: `a`..`z` are 1 to 26, `A`..`Z` are 27 to 52.
pub open spec fn priority(c: char) -> Option<nat> {
    if 'a' <= c <= 'z' {
        Some((c as nat - 96) as nat)
    } else if 'A' <= c <= 'Z' {
        Some((c as nat - 38) as nat)
    } else {
        None
    }
}

/// The items of `a` that `b` also holds, each once, in order of first
/// appearance in `a`.
pub open spec fn common(a: Seq<char>, b: Seq<char>) -> Seq<char>
    decreases a.len(),
{
    if a.len() == 0 {
        Seq::empty()
    } else {
        let r = common(a.drop_last(), b);
        if b.contains(a.last()) && !r.contains(a.last()) {
            r.push(a.last())
        } else {
            r
        }
    }
}

/// Sum of the priorities of `s`; `None` if one item has none.
pub open spec fn priority_sum(s: Seq<char>) -> Option<nat>
    decreases s.len(),
{
    if s.len() == 0 {
        Some(0)
    } else {
        match (priority_sum(s.drop_last()), priority(s.last())) {
            (Some(a), Some(b)) => Some(a + b),
            _ => None,
        }
    }
}

/// Why a rucksack list could not be scored.
#[derive(PartialEq, Eq, Structural, Clone, Copy, Debug)]
pub enum RuckError {
    /// An empty line.
    Empty,
    /// An item that is no ASCII letter.
    Unscorable,
    /// Three rucksacks that do not share exactly one item.
    BadgeCount,
    /// The total does not fit in 128 bits.
    TooLarge,
}

/// The two compartments of a rucksack.
#[derive(Debug)]
pub struct RuckSack {
    pub first: Vec<char>,
    pub second: Vec<char>,
}

proof fn lemma_push_contains(s: Seq<char>, x: char, c: char)
    ensures
        s.push(x).contains(c) <==> (s.contains(c) || c == x),
{
    if s.contains(c) {
        let i = choose|i: int| 0 <= i < s.len() && s[i] == c;
        assert(s.push(x)[i] == c);
    }
    if c == x {
        assert(s.push(x)[s.len() as int] == x);
    }
    if s.push(x).contains(c) && c != x {
        let i = choose|i: int| 0 <= i < s.len() + 1 && s.push(x)[i] == c;
        assert(s[i] == c);
    }
}

/// `common` lists each shared item once, and exactly the shared items.
pub proof fn lemma_common(a: Seq<char>, b: Seq<char>)
    ensures
        common(a, b).no_duplicates(),
        forall|c: char| #[trigger] common(a, b).contains(c) <==> (a.contains(c) && b.contains(c)),
    decreases a.len(),
{
    if a.len() > 0 {
        let ap = a.drop_last();
        let x = a.last();
        let r = common(ap, b);
        lemma_common(ap, b);
        assert(a =~= ap.push(x));
        assert forall|c: char| #[trigger] common(a, b).contains(c) <==> (a.contains(c) && b.contains(c)) by {
            lemma_push_contains(ap, x, c);
            lemma_push_contains(r, x, c);
        }
        if b.contains(x) && !r.contains(x) {
            assert forall|i: int, j: int| 0 <= i < j < r.len() + 1 implies r.push(x)[i] != r.push(x)[j] by {
                if j == r.len() {
                    assert(r.push(x)[i] == r[i]);
                }
            }
        }
    }
}

/// The items of `a` that `b` also holds, each once, in order.
fn common_of(a: &Vec<char>, b: &Vec<char>) -> (r: Vec<char>)
    ensures
        r@ == common(a@, b@),
{
    let mut out: Vec<char> = Vec::new();
    let mut i: usize = 0;
    assert(a@.take(0) =~= Seq::<char>::empty());
    while i < a.len()
        invariant
            i <= a.len(),
            out@ == common(a@.take(i as int), b@),
        decreases a.len() - i,
    {
        assert(a@.take(i + 1).drop_last() =~= a@.take(i as int));
        assert(a@.take(i + 1).last() == a[i as int]);
        let c = a[i];
        if contains_char(b, c) && !contains_char(&out, c) {
            out.push(c);
        }
        i = i + 1;
    }
    assert(a@.take(i as int) =~= a@);
    out
}

fn contains_char(v: &Vec<char>, c: char) -> (r: bool)
    ensures
        r == v@.contains(c),
{
    let mut i: usize = 0;
    while i < v.len()
        invariant
            i <= v.len(),
            forall|j: int| 0 <= j < i ==> v@[j] != c,
        decreases v.len() - i,
    {
        if v[i] == c {
            assert(v@[i as int] == c);
            return true;
        }
        i = i + 1;
    }
    false
}

fn priority_of(c: char) -> (r: Option<u32>)
    ensures
        match priority(c) {
            Some(p) => r == Some(p as u32),
            None => r is None,
        },
{
    if 'a' <= c && c <= 'z' {
        Some(c as u32 - 96)
    } else if 'A' <= c && c <= 'Z' {
        Some(c as u32 - 38)
    } else {
        None
    }
}

/// Sum of the priorities of `s`.
fn sum_priorities(s: &Vec<char>) -> (r: Option<u128>)
    ensures
        match priority_sum(s@) {
            Some(p) => r matches Some(x) && x as nat == p,
            None => r is None,
        },
{
    let mut sum: u128 = 0;
    let mut i: usize = 0;
    assert(s@.take(0) =~= Seq::<char>::empty());
    while i < s.len()
        invariant
            i <= s.len(),
            priority_sum(s@.take(i as int)) == Some(sum as nat),
            sum <= 52 * i,
        decreases s.len() - i,
    {
        assert(s@.take(i + 1).drop_last() =~= s@.take(i as int));
        assert(s@.take(i + 1).last() == s[i as int]);
        match priority_of(s[i]) {
            None => {
                proof {
                    lemma_priority_sum_fails(s@, i as int + 1);
                }
                return None;
            },
            Some(p) => {
                sum = sum + p as u128;
            },
        }
        i = i + 1;
    }
    assert(s@.take(i as int) =~= s@);
    Some(sum)
}

proof fn lemma_priority_sum_fails(s: Seq<char>, i: int)
    requires
        0 <= i <= s.len(),
        priority_sum(s.take(i)) is None,
    ensures
        priority_sum(s) is None,
    decreases s.len() - i,
{
    if i < s.len() {
        assert(s.take(i + 1).drop_last() =~= s.take(i));
        lemma_priority_sum_fails(s, i + 1);
    } else {
        assert(s.take(i) =~= s);
    }
}

/// The first `half` characters of a line and the `half` after them, where
/// `half` is half the line's length in bytes.
pub open spec fn halves(l: Seq<char>) -> (Seq<char>, Seq<char>) {
    let n = l.len();
    let h = ((vstd::utf8::encode_utf8(l).len() as usize) / 2) as int;
    let m = if h < n {
        h
    } else {
        n as int
    };
    let e = if 2 * h < n {
        2 * h
    } else {
        n as int
    };
    (l.take(m), l.subrange(m, e))
}

impl RuckSack {
    /// Splits a line into its two compartments.
    pub fn parse(input: &str) -> (r: Result<RuckSack, RuckError>)
        ensures
            input@.len() == 0 ==> r == Err::<RuckSack, RuckError>(RuckError::Empty),
            input@.len() > 0 ==> (r matches Ok(k) && k.first@ == halves(input@).0 && k.second@
                == halves(input@).1),
    {
        let cs = chars_of(input);
        if cs.len() == 0 {
            return Err(RuckError::Empty);
        }
        let half = input.len() / 2;
        let n = cs.len();
        let m = if half < n {
            half
        } else {
            n
        };
        let e = if half <= (n - m) && m + half < n {
            m + half
        } else {
            n
        };
        let mut first: Vec<char> = Vec::new();
        let mut second: Vec<char> = Vec::new();
        let mut i: usize = 0;
        while i < n
            invariant
                n == cs.len(),
                m <= e <= n,
                i <= n,
                first@ == cs@.take(if i < m {
                    i as int
                } else {
                    m as int
                }),
                second@ == cs@.subrange(
                    m as int,
                    if i < m {
                        m as int
                    } else if i < e {
                        i as int
                    } else {
                        e as int
                    },
                ),
            decreases n - i,
        {
            if i < m {
                first.push(cs[i]);
            } else if i < e {
                second.push(cs[i]);
            }
            i = i + 1;
            assert(first@ =~= cs@.take(if i < m {
                i as int
            } else {
                m as int
            }));
            assert(second@ =~= cs@.subrange(
                m as int,
                if i < m {
                    m as int
                } else if i < e {
                    i as int
                } else {
                    e as int
                },
            ));
        }
        assert(m as int == (if half < n { half as int } else { n as int }));
        Ok(RuckSack { first, second })
    }

    /// The items both compartments hold, each once.
    pub fn in_common(&self) -> (r: Vec<char>)
        ensures
            r@ == common(self.first@, self.second@),
            r@.no_duplicates(),
            forall|c: char| #[trigger] r@.contains(c) <==> (self.first@.contains(c) && self.second@.contains(c)),
    {
        proof {
            lemma_common(self.first@, self.second@);
        }
        common_of(&self.first, &self.second)
    }

    /// Sum of the priorities of the items both compartments hold.
    pub fn score(&self) -> (r: Result<u128, RuckError>)
        ensures
            match priority_sum(common(self.first@, self.second@)) {
                Some(p) => r matches Ok(x) && x as nat == p,
                None => r == Err::<u128, RuckError>(RuckError::Unscorable),
            },
    {
        let c = self.in_common();
        match sum_priorities(&c) {
            Some(p) => Ok(p),
            None => Err(RuckError::Unscorable),
        }
    }
}

/// Total of the rucksacks' scores, or the error of the first bad line.
pub open spec fn sacks_total(ls: Seq<Seq<char>>) -> Result<nat, RuckError>
    decreases ls.len(),
{
    if ls.len() == 0 {
        Ok(0)
    } else {
        match sacks_total(ls.drop_last()) {
            Err(e) => Err(e),
            Ok(t) => {
                let l = ls.last();
                if l.len() == 0 {
                    Err(RuckError::Empty)
                } else {
                    match priority_sum(common(halves(l).0, halves(l).1)) {
                        None => Err(RuckError::Unscorable),
                        Some(p) => if t + p > u128::MAX {
                            Err(RuckError::TooLarge)
                        } else {
                            Ok(t + p)
                        },
                    }
                }
            },
        }
    }
}

/// The items shared by the three rucksacks of each group of three lines,
/// for the first `k` groups; lines after the last full group are ignored.
pub open spec fn badges(ls: Seq<Seq<char>>, k: nat) -> Result<Seq<char>, RuckError>
    decreases k,
{
    if k == 0 {
        Ok(Seq::empty())
    } else {
        match badges(ls, (k - 1) as nat) {
            Err(e) => Err(e),
            Ok(bs) => {
                let i = 3 * (k - 1);
                let shared = common(common(ls[i], ls[i + 1]), ls[i + 2]);
                if shared.len() != 1 {
                    Err(RuckError::BadgeCount)
                } else {
                    Ok(bs.push(shared[0]))
                }
            },
        }
    }
}

/// Sum of the scores of the rucksacks listed one per line.
pub fn part1(input: &str) -> (r: Result<u128, RuckError>)
    ensures
        match sacks_total(lines(input@)) {
            Ok(t) => r == Ok::<u128, RuckError>(t as u128),
            Err(e) => r == Err::<u128, RuckError>(e),
        },
{
    let cs = chars_of(input);
    let bounds = line_bounds(&cs);
    let ghost ls = lines(input@);
    let mut sum: u128 = 0;
    let mut i: usize = 0;
    assert(ls.take(0) =~= Seq::<Seq<char>>::empty());
    while i < bounds.len()
        invariant
            cs@ == input@,
            ls == lines(input@),
            bounds.len() == ls.len(),
            forall|k: int|
                0 <= k < bounds.len() ==> (#[trigger] bounds[k]).0 <= bounds[k].1 <= cs.len()
                    && cs@.subrange(bounds[k].0 as int, bounds[k].1 as int) == ls[k],
            i <= bounds.len(),
            sacks_total(ls.take(i as int)) == Ok::<nat, RuckError>(sum as nat),
        decreases bounds.len() - i,
    {
        assert(ls.take(i + 1).drop_last() =~= ls.take(i as int));
        assert(ls.take(i + 1).last() == ls[i as int]);
        let (a, b) = bounds[i];
        let line = input.substring_char(a, b);
        let step = match RuckSack::parse(line) {
            Err(e) => Err(e),
            Ok(sack) => sack.score(),
        };
        match step {
            Err(e) => {
                proof {
                    lemma_sacks_fail(ls, i as int + 1);
                }
                return Err(e);
            },
            Ok(p) => {
                if sum > u128::MAX - p {
                    proof {
                        lemma_sacks_fail(ls, i as int + 1);
                    }
                    return Err(RuckError::TooLarge);
                }
                sum = sum + p;
            },
        }
        i = i + 1;
    }
    assert(ls.take(i as int) =~= ls);
    Ok(sum)
}

/// Sum of the priorities of the item each group of three rucksacks shares.
pub fn part2(input: &str) -> (r: Result<u128, RuckError>)
    ensures
        match badges(lines(input@), lines(input@).len() / 3) {
            Err(e) => r == Err::<u128, RuckError>(e),
            Ok(bs) => match priority_sum(bs) {
                None => r == Err::<u128, RuckError>(RuckError::Unscorable),
                Some(p) => r matches Ok(x) && x as nat == p,
            },
        },
{
    let cs = chars_of(input);
    let bounds = line_bounds(&cs);
    let ghost ls = lines(input@);
    let groups = bounds.len() / 3;
    let mut found: Vec<char> = Vec::new();
    let mut k: usize = 0;
    while k < groups
        invariant
            cs@ == input@,
            ls == lines(input@),
            bounds.len() == ls.len(),
            groups == ls.len() / 3,
            forall|j: int|
                0 <= j < bounds.len() ==> (#[trigger] bounds[j]).0 <= bounds[j].1 <= cs.len()
                    && cs@.subrange(bounds[j].0 as int, bounds[j].1 as int) == ls[j],
            k <= groups,
            badges(ls, k as nat) == Ok::<Seq<char>, RuckError>(found@),
        decreases groups - k,
    {
        let i = 3 * k;
        let (a0, b0) = bounds[i];
        let (a1, b1) = bounds[i + 1];
        let (a2, b2) = bounds[i + 2];
        let l0 = chars_of(input.substring_char(a0, b0));
        let l1 = chars_of(input.substring_char(a1, b1));
        let l2 = chars_of(input.substring_char(a2, b2));
        let shared = common_of(&common_of(&l0, &l1), &l2);
        if shared.len() != 1 {
            proof {
                lemma_badges_fail(ls, (k + 1) as nat, groups as nat);
            }
            return Err(RuckError::BadgeCount);
        }
        found.push(shared[0]);
        k = k + 1;
    }
    match sum_priorities(&found) {
        Some(p) => Ok(p),
        None => Err(RuckError::Unscorable),
    }
}

proof fn lemma_badges_fail(ls: Seq<Seq<char>>, k: nat, n: nat)
    requires
        k <= n,
        badges(ls, k) is Err,
    ensures
        badges(ls, n) == badges(ls, k),
    decreases n - k,
{
    if k < n {
        lemma_badges_fail(ls, k + 1, n);
    }
}

proof fn lemma_sacks_fail(ls: Seq<Seq<char>>, i: int)
    requires
        0 <= i <= ls.len(),
        sacks_total(ls.take(i)) is Err,
    ensures
        sacks_total(ls) == sacks_total(ls.take(i)),
    decreases ls.len() - i,
{
    if i < ls.len() {
        assert(ls.take(i + 1).drop_last() =~= ls.take(i));
        lemma_sacks_fail(ls, i + 1);
    } else {
        assert(ls.take(i) =~= ls);
    }
}

} // verus!
