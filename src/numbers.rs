use vstd::prelude::*;
use crate::transcript::{chars_of, line_bounds, lines, parse_u32, parse_u32_chars};

verus! {

/// The numbers of the lines `ls`, or the position of the first line that is
/// no `u32`.
pub open spec fn numbers_of(ls: Seq<Seq<char>>) -> Result<Seq<u32>, nat>
    decreases ls.len(),
{
    if ls.len() == 0 {
        Ok(Seq::empty())
    } else {
        match numbers_of(ls.drop_last()) {
            Err(k) => Err(k),
            Ok(ns) => match parse_u32(ls.last()) {
                None => Err((ls.len() - 1) as nat),
                Some(n) => Ok(ns.push(n)),
            },
        }
    }
}

proof fn lemma_numbers_fail(ls: Seq<Seq<char>>, i: int)
    requires
        0 <= i <= ls.len(),
        numbers_of(ls.take(i)) is Err,
    ensures
        numbers_of(ls) == numbers_of(ls.take(i)),
    decreases ls.len() - i,
{
    if i < ls.len() {
        assert(ls.take(i + 1).drop_last() =~= ls.take(i));
        lemma_numbers_fail(ls, i + 1);
    } else {
        assert(ls.take(i) =~= ls);
    }
}

/// Reads one `u32` per line; on failure, gives the index of the first line
/// that is no `u32`.
pub fn parse_u32_lines(input: &str) -> (r: Result<Vec<u32>, usize>)
    ensures
        match numbers_of(lines(input@)) {
            Ok(ns) => r matches Ok(v) && v@ == ns,
            Err(k) => r matches Err(i) && i == k,
        },
{
    let cs = chars_of(input);
    let bounds = line_bounds(&cs);
    let ghost ls = lines(input@);
    let mut out: Vec<u32> = Vec::new();
    let mut i: usize = 0;
    assert(ls.take(0) =~= Seq::<Seq<char>>::empty());
    while i < bounds.len()
        invariant
            cs@ == input@,
            ls == lines(input@),
            bounds.len() == ls.len(),
            forall|k: int|
                0 <= k < bounds.len() ==> (#[trigger] bounds[k]).0 <= bounds[k].1 <= cs.len()
                    && cs@.subrange(bounds[k].0 as int, bounds[k].1 as int) == ls[k],
            i <= bounds.len(),
            numbers_of(ls.take(i as int)) == Ok::<Seq<u32>, nat>(out@),
        decreases bounds.len() - i,
    {
        assert(ls.take(i + 1).drop_last() =~= ls.take(i as int));
        assert(ls.take(i + 1).last() == ls[i as int]);
        let (a, b) = bounds[i];
        match parse_u32_chars(&cs, a, b) {
            Some(n) => {
                out.push(n);
            },
            None => {
                proof {
                    lemma_numbers_fail(ls, i as int + 1);
                }
                return Err(i);
            },
        }
        i = i + 1;
    }
    assert(ls.take(i as int) =~= ls);
    Ok(out)
}

} // verus!
