use vstd::prelude::*;
use crate::model::{Entry, size_of};

verus! {

/// Capacity of the device.
pub const FS_SIZE: u64 = 70_000_000;

/// Free space an update needs.
pub const FREE_MIN: u64 = 30_000_000;

/// The sizes of the directories of a listing, in listing order.
pub open spec fn dir_sizes(nodes: Seq<Entry>) -> Seq<nat>
    decreases nodes.len(),
{
    if nodes.len() == 0 {
        Seq::empty()
    } else if nodes.last() is Dir {
        dir_sizes(nodes.drop_last()).push(size_of(nodes.last()))
    } else {
        dir_sizes(nodes.drop_last())
    }
}

pub open spec fn nats(s: Seq<u64>) -> Seq<nat> {
    s.map_values(|x: u64| x as nat)
}

/// Sum of the values of `s` that are at most `t`.
pub open spec fn sum_at_most(s: Seq<nat>, t: nat) -> nat
    decreases s.len(),
{
    if s.len() == 0 {
        0
    } else {
        sum_at_most(s.drop_last(), t) + if s.last() <= t {
            s.last()
        } else {
            0
        }
    }
}

/// The least value of `s` that is at least `m`, if there is one.
pub open spec fn smallest_at_least(s: Seq<nat>, m: int) -> Option<nat>
    decreases s.len(),
{
    if s.len() == 0 {
        None
    } else {
        let x = s.last();
        match smallest_at_least(s.drop_last(), m) {
            None => if x >= m {
                Some(x)
            } else {
                None
            },
            Some(y) => if x >= m && x < y {
                Some(x)
            } else {
                Some(y)
            },
        }
    }
}

/// The space to free so that an update fits, given the space in use; zero
/// or less when there is already enough.
pub open spec fn space_needed(used: nat) -> int {
    FREE_MIN - (FS_SIZE - used)
}

/// Below zero, a lower bound on sizes is no bound at all.
pub proof fn lemma_smallest_nonpositive(s: Seq<nat>, m: int)
    requires
        m <= 0,
    ensures
        smallest_at_least(s, m) == smallest_at_least(s, 0),
    decreases s.len(),
{
    if s.len() > 0 {
        lemma_smallest_nonpositive(s.drop_last(), m);
    }
}

/// Why a search found nothing.
#[derive(PartialEq, Eq, Structural, Clone, Copy, Debug)]
pub enum QueryError {
    /// No directory qualifies.
    NotFound,
}

/// Sum of the sizes in `sizes` that are at most `threshold`.
pub fn sum_of_directories_at_most(sizes: &Vec<u64>, threshold: u64) -> (r: u128)
    ensures
        r == sum_at_most(nats(sizes@), threshold as nat),
{
    let ghost s = nats(sizes@);
    let mut sum: u128 = 0;
    let mut i: usize = 0;
    assert(s.take(0) =~= Seq::<nat>::empty());
    while i < sizes.len()
        invariant
            s == nats(sizes@),
            i <= sizes.len(),
            sum == sum_at_most(s.take(i as int), threshold as nat),
            sum <= i * threshold,
        decreases sizes.len() - i,
    {
        assert(s.take(i + 1).drop_last() =~= s.take(i as int));
        assert(s.take(i + 1).last() == sizes@[i as int] as nat);
        let x = sizes[i];
        if x <= threshold {
            assert(sum + x <= (i + 1) * threshold) by (nonlinear_arith)
                requires
                    sum <= i * threshold,
                    x <= threshold,
            ;
            assert((i + 1) * threshold <= u128::MAX) by (nonlinear_arith)
                requires
                    i < usize::MAX,
                    threshold <= u64::MAX,
            ;
            sum = sum + x as u128;
        } else {
            assert(sum <= (i + 1) * threshold) by (nonlinear_arith)
                requires
                    sum <= i * threshold,
            ;
        }
        i = i + 1;
    }
    assert(s.take(i as int) =~= s);
    sum
}

/// The least size in `sizes` that is at least `minimum`.
pub fn smallest_directory_at_least(sizes: &Vec<u64>, minimum: u64) -> (r: Result<u64, QueryError>)
    ensures
        match smallest_at_least(nats(sizes@), minimum as int) {
            Some(v) => r == Ok::<u64, QueryError>(v as u64),
            None => r == Err::<u64, QueryError>(QueryError::NotFound),
        },
{
    let ghost s = nats(sizes@);
    let mut best: Option<u64> = None;
    let mut i: usize = 0;
    assert(s.take(0) =~= Seq::<nat>::empty());
    while i < sizes.len()
        invariant
            s == nats(sizes@),
            i <= sizes.len(),
            match smallest_at_least(s.take(i as int), minimum as int) {
                Some(v) => best == Some(v as u64) && v <= u64::MAX,
                None => best is None,
            },
        decreases sizes.len() - i,
    {
        assert(s.take(i + 1).drop_last() =~= s.take(i as int));
        assert(s.take(i + 1).last() == sizes@[i as int] as nat);
        let x = sizes[i];
        if x >= minimum {
            match best {
                None => {
                    best = Some(x);
                },
                Some(y) => {
                    if x < y {
                        best = Some(x);
                    }
                },
            }
        }
        i = i + 1;
    }
    assert(s.take(i as int) =~= s);
    match best {
        Some(v) => Ok(v),
        None => Err(QueryError::NotFound),
    }
}

/// `space_needed` for a tree of `used` bytes, clamped at zero.
pub fn needed_for(used: u64) -> (r: u64)
    ensures
        r == if space_needed(used as nat) > 0 {
            space_needed(used as nat)
        } else {
            0
        },
{
    if used > FS_SIZE - FREE_MIN {
        used - (FS_SIZE - FREE_MIN)
    } else {
        0
    }
}

} // verus!
