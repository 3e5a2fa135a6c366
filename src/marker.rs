use vstd::prelude::*;
use crate::transcript::chars_of;

verus! {

/// No character of `s` occurs twice.
pub open spec fn all_distinct(s: Seq<char>) -> bool {
    forall|j: int, k: int| 0 <= j < k < s.len() ==> s[j] != s[k]
}

/// Where the first window of `w` distinct characters at or after `i` ends.
pub open spec fn marker_from(s: Seq<char>, w: nat, i: nat) -> Option<nat>
    decreases s.len() - i,
{
    if i + w > s.len() {
        None
    } else if all_distinct(s.subrange(i as int, (i + w) as int)) {
        Some(i + w)
    } else {
        marker_from(s, w, i + 1)
    }
}

/// Why no marker was found.
#[derive(PartialEq, Eq, Structural, Clone, Copy, Debug)]
pub enum MarkerError {
    /// No window of the requested width holds distinct characters.
    NotFound,
}

/// Whether `cs[a..b]` holds distinct characters.
fn distinct_window(cs: &Vec<char>, a: usize, b: usize) -> (r: bool)
    requires
        a <= b <= cs.len(),
    ensures
        r == all_distinct(cs@.subrange(a as int, b as int)),
{
    let ghost s = cs@.subrange(a as int, b as int);
    let mut j: usize = a;
    while j < b
        invariant
            a <= j <= b <= cs.len(),
            s == cs@.subrange(a as int, b as int),
            forall|x: int, y: int| 0 <= x < y < s.len() && x < j - a ==> s[x] != s[y],
        decreases b - j,
    {
        let mut k: usize = j + 1;
        while k < b
            invariant
                a <= j < k <= b,
                b <= cs.len(),
                s == cs@.subrange(a as int, b as int),
                forall|x: int, y: int| 0 <= x < y < s.len() && x < j - a ==> s[x] != s[y],
                forall|y: int| j - a < y < k - a ==> s[j - a] != #[trigger] s[y],
            decreases b - k,
        {
            if cs[j] == cs[k] {
                assert(s[j - a] == s[k - a]);
                return false;
            }
            k = k + 1;
        }
        j = j + 1;
    }
    true
}

/// Position just past the first `window_size` characters of `buffer` that
/// are all distinct.
pub fn scan_buffer(buffer: &str, window_size: usize) -> (r: Result<usize, MarkerError>)
    requires
        window_size > 0,
    ensures
        match marker_from(buffer@, window_size as nat, 0) {
            Some(m) => r == Ok::<usize, MarkerError>(m as usize),
            None => r == Err::<usize, MarkerError>(MarkerError::NotFound),
        },
{
    let cs = chars_of(buffer);
    let n = cs.len();
    if window_size > n {
        return Err(MarkerError::NotFound);
    }
    let mut i: usize = 0;
    while i <= n - window_size
        invariant
            cs@ == buffer@,
            n == cs.len(),
            window_size <= n,
            i <= n - window_size + 1,
            marker_from(buffer@, window_size as nat, 0) == marker_from(buffer@, window_size as nat, i as nat),
        decreases n - i,
    {
        if distinct_window(&cs, i, i + window_size) {
            return Ok(i + window_size);
        }
        i = i + 1;
    }
    Err(MarkerError::NotFound)
}

/// End of the first start-of-packet marker (four distinct characters).
pub fn part1(buffer: &str) -> (r: Result<usize, MarkerError>)
    ensures
        match marker_from(buffer@, 4, 0) {
            Some(m) => r == Ok::<usize, MarkerError>(m as usize),
            None => r == Err::<usize, MarkerError>(MarkerError::NotFound),
        },
{
    scan_buffer(buffer, 4)
}

/// End of the first start-of-message marker (fourteen distinct characters).
pub fn part2(buffer: &str) -> (r: Result<usize, MarkerError>)
    ensures
        match marker_from(buffer@, 14, 0) {
            Some(m) => r == Ok::<usize, MarkerError>(m as usize),
            None => r == Err::<usize, MarkerError>(MarkerError::NotFound),
        },
{
    scan_buffer(buffer, 14)
}

} // verus!
