use vstd::prelude::*;
use crate::transcript::{chars_of, is_space, is_space_char, line_bounds, lines};

verus! {

/// How far a tree sees in each direction, once computed.
#[derive(PartialEq, Eq, Structural, Clone, Copy, Debug)]
pub struct Views {
    pub left: Option<usize>,
    pub right: Option<usize>,
    pub up: Option<usize>,
    pub down: Option<usize>,
}

#[derive(PartialEq, Eq, Structural, Clone, Copy, Debug)]
pub struct Tree {
    pub height: u8,
    pub views: Views,
}

/// Rows of trees, top row first.
#[derive(Debug)]
pub struct Forest(pub Vec<Vec<Tree>>);

/// Why a forest could not be read or measured.
#[derive(PartialEq, Eq, Structural, Clone, Copy, Debug)]
pub enum ForestError {
    /// A character is no digit.
    BadHeight,
    /// There are no trees.
    Empty,
    /// No tree stands at the requested place.
    NoTree,
    /// The rows differ in length.
    Ragged,
    /// A scenic score does not fit in 64 bits.
    TooLarge,
}

/// The trees of `f`, row by row.
pub open spec fn grid(f: &Forest) -> Seq<Seq<Tree>> {
    f.0@.map_values(|r: Vec<Tree>| r@)
}

impl Forest {
    /// The tree at column `x` of row `y`, to change in place.
    pub fn get_tree_mut(&mut self, pos: (usize, usize)) -> (r: Result<&mut Tree, ForestError>)
        ensures
            (pos.1 < grid(old(self)).len() && pos.0 < grid(old(self))[pos.1 as int].len()) <==> r is Ok,
            r matches Ok(t) ==> *t == grid(old(self))[pos.1 as int][pos.0 as int] && grid(final(self))
                == grid(old(self)).update(
                pos.1 as int,
                grid(old(self))[pos.1 as int].update(pos.0 as int, *final(t)),
            ),
            r is Err ==> grid(final(self)) == grid(old(self)),
    {
        let (x, y) = pos;
        if y >= self.0.len() || x >= self.0[y].len() {
            return Err(ForestError::NoTree);
        }
        Ok(&mut self.0[y][x])
    }
}

/// Every row has as many trees as the first, and there is at least one tree.
pub open spec fn is_rect(g: Seq<Seq<Tree>>) -> bool {
    g.len() > 0 && g[0].len() > 0 && forall|y: int| 0 <= y < g.len() ==> #[trigger] g[y].len() == g[0].len()
}

pub open spec fn row_heights(g: Seq<Seq<Tree>>, y: int) -> Seq<u8> {
    g[y].map_values(|t: Tree| t.height)
}

pub open spec fn col_heights(g: Seq<Seq<Tree>>, x: int) -> Seq<u8> {
    g.map_values(|r: Seq<Tree>| r[x].height)
}

/// Trees seen from position `i` of the line `hs` looking toward the start,
/// checking from position `j` down: up to and including the first tree at
/// least as tall, or to the edge.
pub open spec fn look_back(hs: Seq<u8>, i: int, j: int) -> nat
    decreases j + 1,
{
    if j < 0 {
        i as nat
    } else if hs[j] >= hs[i] {
        (i - j) as nat
    } else {
        look_back(hs, i, j - 1)
    }
}

/// Trees seen from position `i` of `hs` looking toward the end, checking
/// from position `j` up.
pub open spec fn look_ahead(hs: Seq<u8>, i: int, j: int) -> nat
    decreases hs.len() - j,
{
    if j >= hs.len() {
        (hs.len() - i - 1) as nat
    } else if hs[j] >= hs[i] {
        (j - i) as nat
    } else {
        look_ahead(hs, i, j + 1)
    }
}

pub proof fn lemma_look_bounds(hs: Seq<u8>, i: int, j: int)
    requires
        0 <= i < hs.len(),
    ensures
        j < i ==> look_back(hs, i, j) <= i,
        j > i ==> look_ahead(hs, i, j) <= hs.len() - i - 1,
{
    lemma_look_back_bound(hs, i, j);
    lemma_look_ahead_bound(hs, i, j);
}

proof fn lemma_look_back_bound(hs: Seq<u8>, i: int, j: int)
    requires
        0 <= i < hs.len(),
    ensures
        j < i ==> look_back(hs, i, j) <= i,
    decreases j + 1,
{
    if j >= 0 && j < i && hs[j] < hs[i] {
        lemma_look_back_bound(hs, i, j - 1);
    }
}

proof fn lemma_look_ahead_bound(hs: Seq<u8>, i: int, j: int)
    requires
        0 <= i < hs.len(),
    ensures
        j > i ==> look_ahead(hs, i, j) <= hs.len() - i - 1,
    decreases hs.len() - j,
{
    if j < hs.len() && j > i && hs[j] < hs[i] {
        lemma_look_ahead_bound(hs, i, j + 1);
    }
}

/// The views of the tree at column `x` of row `y`.
pub open spec fn views_at(g: Seq<Seq<Tree>>, x: int, y: int) -> Views {
    Views {
        left: Some(look_back(row_heights(g, y), x, x - 1) as usize),
        right: Some(look_ahead(row_heights(g, y), x, x + 1) as usize),
        up: Some(look_back(col_heights(g, x), y, y - 1) as usize),
        down: Some(look_ahead(col_heights(g, x), y, y + 1) as usize),
    }
}

/// Product of the four viewing distances of a tree.
pub open spec fn scenic(g: Seq<Seq<Tree>>, x: int, y: int) -> nat {
    look_back(row_heights(g, y), x, x - 1) * look_ahead(row_heights(g, y), x, x + 1) * look_back(
        col_heights(g, x),
        y,
        y - 1,
    ) * look_ahead(col_heights(g, x), y, y + 1)
}

/// All trees of `hs` before position `i` are lower than the one there.
pub open spec fn clear_before(hs: Seq<u8>, i: int) -> bool {
    forall|j: int| 0 <= j < i ==> hs[j] < hs[i]
}

/// All trees of `hs` after position `i` are lower than the one there.
pub open spec fn clear_after(hs: Seq<u8>, i: int) -> bool {
    forall|j: int| i < j < hs.len() ==> hs[j] < hs[i]
}

/// The tree at column `x` of row `y` can be seen from outside the grid.
pub open spec fn visible(g: Seq<Seq<Tree>>, x: int, y: int) -> bool {
    clear_before(row_heights(g, y), x) || clear_after(row_heights(g, y), x) || clear_before(
        col_heights(g, x),
        y,
    ) || clear_after(col_heights(g, x), y)
}

/// Visible trees among the first `n` of row `y`.
pub open spec fn visible_in_row(g: Seq<Seq<Tree>>, y: int, n: int) -> nat
    decreases n,
{
    if n <= 0 {
        0
    } else {
        visible_in_row(g, y, n - 1) + if visible(g, n - 1, y) {
            1nat
        } else {
            0
        }
    }
}

/// Visible trees in the first `m` rows.
pub open spec fn visible_upto(g: Seq<Seq<Tree>>, m: int) -> nat
    decreases m,
{
    if m <= 0 {
        0
    } else {
        visible_upto(g, m - 1) + visible_in_row(g, m - 1, g[0].len() as int)
    }
}

/// A fresh tree whose views are not computed yet.
pub open spec fn fresh(h: u8) -> Tree {
    Tree { height: h, views: Views { left: None, right: None, up: None, down: None } }
}

/// `s` without leading and trailing white space.
pub open spec fn trim(s: Seq<char>) -> Seq<char>
    decreases s.len(),
{
    if s.len() > 0 && is_space(s[0]) {
        trim(s.drop_first())
    } else if s.len() > 0 && is_space(s.last()) {
        trim(s.drop_last())
    } else {
        s
    }
}

/// The row of fresh trees a line of digits describes.
pub open spec fn row_of(l: Seq<char>) -> Option<Seq<Tree>> {
    if forall|i: int| 0 <= i < l.len() ==> '0' <= #[trigger] l[i] <= '9' {
        Some(l.map_values(|c: char| fresh((c as u32 - '0' as u32) as u8)))
    } else {
        None
    }
}

/// The rows the lines describe, if each is all digits.
pub open spec fn rows_of(ls: Seq<Seq<char>>) -> Option<Seq<Seq<Tree>>>
    decreases ls.len(),
{
    if ls.len() == 0 {
        Some(Seq::empty())
    } else {
        match (rows_of(ls.drop_last()), row_of(ls.last())) {
            (Some(rs), Some(r)) => Some(rs.push(r)),
            _ => None,
        }
    }
}

impl Tree {
    pub fn new(height: u8) -> (r: Tree)
        ensures
            r == fresh(height),
    {
        Tree { height, views: Views { left: None, right: None, up: None, down: None } }
    }
}

/// Bounds of `s` without leading and trailing white space.
fn trim_bounds(cs: &Vec<char>) -> (r: (usize, usize))
    ensures
        r.0 <= r.1 <= cs.len(),
        cs@.subrange(r.0 as int, r.1 as int) == trim(cs@),
{
    let mut a: usize = 0;
    let mut b: usize = cs.len();
    assert(cs@.subrange(0, cs.len() as int) =~= cs@);
    while a < b && is_space_char(cs[a])
        invariant
            a <= b <= cs.len(),
            b == cs.len(),
            trim(cs@) == trim(cs@.subrange(a as int, b as int)),
        decreases b - a,
    {
        assert(cs@.subrange(a as int, b as int).drop_first() =~= cs@.subrange(a + 1, b as int));
        a = a + 1;
    }
    while a < b && is_space_char(cs[b - 1])
        invariant
            a <= b <= cs.len(),
            a == b || !is_space(cs@[a as int]),
            trim(cs@) == trim(cs@.subrange(a as int, b as int)),
        decreases b - a,
    {
        assert(cs@.subrange(a as int, b as int).drop_last() =~= cs@.subrange(a as int, b - 1));
        b = b - 1;
    }
    (a, b)
}

impl Forest {
    /// Reads a grid of digits, one row per line, ignoring white space
    /// around the whole text.
    pub fn parse(s: &str) -> (r: Result<Forest, ForestError>)
        ensures
            match rows_of(lines(trim(s@))) {
                Some(rs) => r matches Ok(f) && grid(&f) == rs,
                None => r == Err::<Forest, ForestError>(ForestError::BadHeight),
            },
    {
        let all = chars_of(s);
        let (a, b) = trim_bounds(&all);
        let t = s.substring_char(a, b);
        let cs = chars_of(t);
        let bounds = line_bounds(&cs);
        let ghost ls = lines(trim(s@));
        let mut rows: Vec<Vec<Tree>> = Vec::new();
        let mut i: usize = 0;
        assert(ls.take(0) =~= Seq::<Seq<char>>::empty());
        assert(grid(&Forest(rows)) =~= Seq::<Seq<Tree>>::empty());
        while i < bounds.len()
            invariant
                cs@ == trim(s@),
                ls == lines(trim(s@)),
                bounds.len() == ls.len(),
                forall|k: int|
                    0 <= k < bounds.len() ==> (#[trigger] bounds[k]).0 <= bounds[k].1 <= cs.len()
                        && cs@.subrange(bounds[k].0 as int, bounds[k].1 as int) == ls[k],
                i <= bounds.len(),
                rows_of(ls.take(i as int)) == Some(rows@.map_values(|r: Vec<Tree>| r@)),
            decreases bounds.len() - i,
        {
            assert(ls.take(i + 1).drop_last() =~= ls.take(i as int));
            assert(ls.take(i + 1).last() == ls[i as int]);
            let (la, lb) = bounds[i];
            let row = match parse_row(&cs, la, lb) {
                Some(row) => row,
                None => {
                    proof {
                        lemma_rows_fail(ls, i as int + 1);
                    }
                    return Err(ForestError::BadHeight);
                },
            };
            let ghost before = rows@.map_values(|r: Vec<Tree>| r@);
            rows.push(row);
            assert(rows@.map_values(|r: Vec<Tree>| r@) =~= before.push(row@));
            i = i + 1;
        }
        assert(ls.take(i as int) =~= ls);
        Ok(Forest(rows))
    }
}

/// The row of fresh trees that the digits `cs[la..lb]` describe.
fn parse_row(cs: &Vec<char>, la: usize, lb: usize) -> (r: Option<Vec<Tree>>)
    requires
        la <= lb <= cs.len(),
    ensures
        match row_of(cs@.subrange(la as int, lb as int)) {
            Some(row) => r matches Some(v) && v@ == row,
            None => r is None,
        },
{
    let ghost l = cs@.subrange(la as int, lb as int);
    let mut row: Vec<Tree> = Vec::new();
    let mut j: usize = la;
    assert(l.take(0).map_values(|c: char| fresh((c as u32 - '0' as u32) as u8)) =~= row@);
    while j < lb
        invariant
            la <= j <= lb <= cs.len(),
            l == cs@.subrange(la as int, lb as int),
            forall|k: int| 0 <= k < j - la ==> '0' <= #[trigger] l[k] <= '9',
            row@ == l.take(j - la).map_values(|c: char| fresh((c as u32 - '0' as u32) as u8)),
        decreases lb - j,
    {
        let c = cs[j];
        assert(l[j - la] == c);
        if !('0' <= c && c <= '9') {
            return None;
        }
        row.push(Tree::new((c as u32 - '0' as u32) as u8));
        j = j + 1;
        assert(row@ =~= l.take(j - la).map_values(|c: char| fresh((c as u32 - '0' as u32) as u8)));
    }
    assert(l.take(j - la) =~= l);
    Some(row)
}

fn look_back_exec(hs: &Vec<u8>, i: usize) -> (r: usize)
    requires
        i < hs.len(),
    ensures
        r == look_back(hs@, i as int, i - 1),
{
    let mut j: usize = i;
    while j > 0
        invariant
            j <= i < hs.len(),
            look_back(hs@, i as int, i - 1) == look_back(hs@, i as int, j - 1),
        decreases j,
    {
        if hs[j - 1] >= hs[i] {
            return i - (j - 1);
        }
        j = j - 1;
    }
    i
}

fn look_ahead_exec(hs: &Vec<u8>, i: usize) -> (r: usize)
    requires
        i < hs.len(),
    ensures
        r == look_ahead(hs@, i as int, i + 1),
{
    let mut j: usize = i + 1;
    while j < hs.len()
        invariant
            i < j <= hs.len(),
            look_ahead(hs@, i as int, i + 1) == look_ahead(hs@, i as int, j as int),
        decreases hs.len() - j,
    {
        if hs[j] >= hs[i] {
            return j - i;
        }
        j = j + 1;
    }
    hs.len() - i - 1
}

fn clear_before_exec(hs: &Vec<u8>, i: usize) -> (r: bool)
    requires
        i < hs.len(),
    ensures
        r == clear_before(hs@, i as int),
{
    let mut j: usize = 0;
    while j < i
        invariant
            j <= i < hs.len(),
            forall|k: int| 0 <= k < j ==> hs@[k] < hs@[i as int],
        decreases i - j,
    {
        if hs[j] >= hs[i] {
            return false;
        }
        j = j + 1;
    }
    true
}

fn clear_after_exec(hs: &Vec<u8>, i: usize) -> (r: bool)
    requires
        i < hs.len(),
    ensures
        r == clear_after(hs@, i as int),
{
    let mut j: usize = i + 1;
    while j < hs.len()
        invariant
            i < j <= hs.len(),
            forall|k: int| i < k < j ==> hs@[k] < hs@[i as int],
        decreases hs.len() - j,
    {
        if hs[j] >= hs[i] {
            return false;
        }
        j = j + 1;
    }
    true
}

fn heights_of_row(row: &Vec<Tree>) -> (r: Vec<u8>)
    ensures
        r@ == row@.map_values(|t: Tree| t.height),
{
    let mut out: Vec<u8> = Vec::new();
    let mut i: usize = 0;
    while i < row.len()
        invariant
            i <= row.len(),
            out@ == row@.take(i as int).map_values(|t: Tree| t.height),
        decreases row.len() - i,
    {
        out.push(row[i].height);
        i = i + 1;
        assert(out@ =~= row@.take(i as int).map_values(|t: Tree| t.height));
    }
    assert(row@.take(i as int) =~= row@);
    out
}

fn heights_of_col(f: &Forest, x: usize) -> (r: Vec<u8>)
    requires
        forall|y: int| 0 <= y < grid(f).len() ==> x < #[trigger] grid(f)[y].len(),
    ensures
        r@ == col_heights(grid(f), x as int),
{
    let ghost g = grid(f);
    let mut out: Vec<u8> = Vec::new();
    let mut y: usize = 0;
    while y < f.0.len()
        invariant
            g == grid(f),
            g.len() == f.0.len(),
            forall|y: int| 0 <= y < g.len() ==> x < #[trigger] g[y].len(),
            y <= f.0.len(),
            out@ == g.take(y as int).map_values(|r: Seq<Tree>| r[x as int].height),
        decreases f.0.len() - y,
    {
        assert(g[y as int] == f.0@[y as int]@);
        out.push(f.0[y][x].height);
        y = y + 1;
        assert(out@ =~= g.take(y as int).map_values(|r: Seq<Tree>| r[x as int].height));
    }
    assert(g.take(y as int) =~= g);
    out
}

impl Forest {
    /// Width and height of the grid, read from its first row.
    pub fn dims(&self) -> (r: Result<(usize, usize), ForestError>)
        ensures
            (grid(self).len() == 0 || grid(self)[0].len() == 0) ==> r == Err::<(usize, usize), ForestError>(
                ForestError::Empty,
            ),
            (grid(self).len() > 0 && grid(self)[0].len() > 0) ==> r == Ok::<(usize, usize), ForestError>(
                (grid(self)[0].len() as usize, grid(self).len() as usize),
            ),
    {
        let y_dim = self.0.len();
        if y_dim == 0 {
            return Err(ForestError::Empty);
        }
        let x_dim = self.0[0].len();
        if x_dim == 0 {
            return Err(ForestError::Empty);
        }
        Ok((x_dim, y_dim))
    }

    /// Width and height of a rectangular grid of at least one tree.
    fn rect_dims(&self) -> (r: Result<(usize, usize), ForestError>)
        ensures
            r matches Ok((w, h)) ==> is_rect(grid(self)) && w == grid(self)[0].len() && h == grid(
                self,
            ).len(),
            (grid(self).len() == 0 || grid(self)[0].len() == 0) ==> r == Err::<(usize, usize), ForestError>(
                ForestError::Empty,
            ),
            (grid(self).len() > 0 && grid(self)[0].len() > 0) ==> (r is Ok <==> is_rect(grid(self))),
            r is Err ==> (r == Err::<(usize, usize), ForestError>(ForestError::Empty) || r == Err::<
                (usize, usize),
                ForestError,
            >(ForestError::Ragged)),
            (grid(self).len() > 0 && grid(self)[0].len() > 0 && !is_rect(grid(self))) ==> r == Err::<
                (usize, usize),
                ForestError,
            >(ForestError::Ragged),
    {
        let ghost g = grid(self);
        let h = self.0.len();
        assert(g.len() == h);
        if h == 0 {
            return Err(ForestError::Empty);
        }
        let w = self.0[0].len();
        assert(g[0] == self.0@[0]@);
        if w == 0 {
            return Err(ForestError::Empty);
        }
        let mut y: usize = 0;
        while y < h
            invariant
                g == grid(self),
                h == g.len(),
                w == g[0].len(),
                h > 0,
                w > 0,
                y <= h,
                forall|k: int| 0 <= k < y ==> #[trigger] g[k].len() == w,
            decreases h - y,
        {
            assert(g[y as int] == self.0@[y as int]@);
            if self.0[y].len() != w {
                return Err(ForestError::Ragged);
            }
            y = y + 1;
        }
        Ok((w, h))
    }
}

impl Forest {
    /// Computes how far each tree sees in each direction: up to and
    /// including the first tree at least as tall, or to the edge.
    pub fn get_distances(&mut self) -> (r: Result<(), ForestError>)
        ensures
            (grid(old(self)).len() == 0 || grid(old(self))[0].len() == 0) ==> r == Err::<(), ForestError>(
                ForestError::Empty,
            ),
            (grid(old(self)).len() > 0 && grid(old(self))[0].len() > 0 && !is_rect(grid(old(self))))
                ==> r == Err::<(), ForestError>(ForestError::Ragged),
            r is Err ==> grid(final(self)) == grid(old(self)),
            is_rect(grid(old(self))) ==> r is Ok,
            r is Ok ==> is_rect(grid(old(self))) && grid(final(self)).len() == grid(old(self)).len()
                && forall|y: int|
                0 <= y < grid(old(self)).len() ==> #[trigger] grid(final(self))[y].len() == grid(
                    old(self),
                )[0].len() && forall|x: int|
                    0 <= x < grid(old(self))[0].len() ==> #[trigger] grid(final(self))[y][x] == (Tree {
                        height: grid(old(self))[y][x].height,
                        views: views_at(grid(old(self)), x, y),
                    }),
    {
        let (w, h) = match self.rect_dims() {
            Ok(d) => d,
            Err(e) => {
                return Err(e);
            },
        };
        let ghost g = grid(self);
        let mut rows: Vec<Vec<Tree>> = Vec::new();
        let mut y: usize = 0;
        while y < h
            invariant
                g == grid(self),
                is_rect(g),
                h == g.len(),
                w == g[0].len(),
                y <= h,
                rows.len() == y,
                forall|k: int| 0 <= k < y ==> (#[trigger] rows@[k])@.len() == w,
                forall|k: int, x: int|
                    0 <= k < y && 0 <= x < w ==> #[trigger] rows@[k]@[x] == (Tree {
                        height: g[k][x].height,
                        views: views_at(g, x, k),
                    }),
            decreases h - y,
        {
            assert(g[y as int] == self.0@[y as int]@);
            assert(g[y as int].len() == w);
            let rh = heights_of_row(&self.0[y]);
            let mut row: Vec<Tree> = Vec::new();
            let mut x: usize = 0;
            while x < w
                invariant
                    g == grid(self),
                    is_rect(g),
                    h == g.len(),
                    w == g[0].len(),
                    y < h,
                    rh@ == row_heights(g, y as int),
                    x <= w,
                    row.len() == x,
                    forall|i: int| 0 <= i < x ==> #[trigger] row@[i] == (Tree {
                        height: g[y as int][i].height,
                        views: views_at(g, i, y as int),
                    }),
                decreases w - x,
            {
                assert(forall|k: int| 0 <= k < g.len() ==> x < #[trigger] g[k].len());
                let ch = heights_of_col(self, x);
                assert(rh@.len() == w);
                assert(ch@.len() == h);
                let left = look_back_exec(&rh, x);
                let right = look_ahead_exec(&rh, x);
                let up = look_back_exec(&ch, y);
                let down = look_ahead_exec(&ch, y);
                let t = Tree {
                    height: rh[x],
                    views: Views { left: Some(left), right: Some(right), up: Some(up), down: Some(down) },
                };
                assert(t == (Tree { height: g[y as int][x as int].height, views: views_at(g, x as int, y as int) }));
                row.push(t);
                x = x + 1;
            }
            rows.push(row);
            y = y + 1;
        }
        self.0 = rows;
        Ok(())
    }
}

/// Counts the trees that can be seen from outside the grid.
pub fn part1(forest: &Forest) -> (r: Result<u128, ForestError>)
    ensures
        (grid(forest).len() == 0 || grid(forest)[0].len() == 0) ==> r == Err::<u128, ForestError>(
            ForestError::Empty,
        ),
        (grid(forest).len() > 0 && grid(forest)[0].len() > 0 && !is_rect(grid(forest))) ==> r == Err::<
            u128,
            ForestError,
        >(ForestError::Ragged),
        is_rect(grid(forest)) ==> r == Ok::<u128, ForestError>(
            visible_upto(grid(forest), grid(forest).len() as int) as u128,
        ),
{
    let (w, h) = match forest.rect_dims() {
        Ok(d) => d,
        Err(e) => {
            return Err(e);
        },
    };
    let ghost g = grid(forest);
    let mut count: u128 = 0;
    let mut y: usize = 0;
    while y < h
        invariant
            g == grid(forest),
            is_rect(g),
            h == g.len(),
            w == g[0].len(),
            y <= h,
            count == visible_upto(g, y as int),
            count <= y * w,
        decreases h - y,
    {
        assert(g[y as int] == forest.0@[y as int]@);
        assert(g[y as int].len() == w);
        let rh = heights_of_row(&forest.0[y]);
        let mut x: usize = 0;
        while x < w
            invariant
                g == grid(forest),
                is_rect(g),
                h == g.len(),
                w == g[0].len(),
                y < h,
                rh@ == row_heights(g, y as int),
                x <= w,
                count == visible_upto(g, y as int) + visible_in_row(g, y as int, x as int),
                count <= y * w + x,
            decreases w - x,
        {
            assert(forall|k: int| 0 <= k < g.len() ==> x < #[trigger] g[k].len());
            let ch = heights_of_col(forest, x);
            let seen = clear_before_exec(&rh, x) || clear_after_exec(&rh, x) || clear_before_exec(&ch, y)
                || clear_after_exec(&ch, y);
            assert(y * w + x + 1 <= u128::MAX) by (nonlinear_arith)
                requires
                    y < h,
                    x < w,
                    h <= usize::MAX,
                    w <= usize::MAX,
            ;
            if seen {
                count = count + 1;
            }
            x = x + 1;
        }
        assert(y * w + w == (y + 1) * w) by (nonlinear_arith);
        y = y + 1;
    }
    Ok(count)
}

/// `a * b * c * d`, or `None` when it passes `u64::MAX`.
fn product4(a: usize, b: usize, c: usize, d: usize) -> (r: Option<u64>)
    ensures
        match r {
            Some(p) => p == a * b * c * d,
            None => a * b * c * d > u64::MAX,
        },
{
    if a == 0 || b == 0 || c == 0 || d == 0 {
        assert(a * b * c * d == 0) by (nonlinear_arith)
            requires
                a == 0 || b == 0 || c == 0 || d == 0,
        ;
        return Some(0);
    }
    assert(a * b <= u128::MAX) by (nonlinear_arith)
        requires
            a <= usize::MAX,
            b <= usize::MAX,
    ;
    let ab = a as u128 * b as u128;
    if ab > u64::MAX as u128 {
        assert(a * b * c * d >= a * b) by (nonlinear_arith)
            requires
                c >= 1,
                d >= 1,
                a * b >= 0,
        ;
        return None;
    }
    assert(ab * c <= u128::MAX) by (nonlinear_arith)
        requires
            ab <= u64::MAX,
            c <= usize::MAX,
    ;
    let abc = ab * c as u128;
    if abc > u64::MAX as u128 {
        assert(a * b * c * d >= a * b * c) by (nonlinear_arith)
            requires
                d >= 1,
                a * b * c >= 0,
        ;
        return None;
    }
    assert(abc * d <= u128::MAX) by (nonlinear_arith)
        requires
            abc <= u64::MAX,
            d <= usize::MAX,
    ;
    let abcd = abc * d as u128;
    if abcd > u64::MAX as u128 {
        return None;
    }
    Some(abcd as u64)
}

/// The highest scenic score: the product of a tree's four viewing
/// distances. The distances are stored in the forest on the way.
pub fn part2(forest: &mut Forest) -> (r: Result<u64, ForestError>)
    ensures
        (grid(old(forest)).len() == 0 || grid(old(forest))[0].len() == 0) ==> r == Err::<u64, ForestError>(
            ForestError::Empty,
        ),
        (grid(old(forest)).len() > 0 && grid(old(forest))[0].len() > 0 && !is_rect(grid(old(forest))))
            ==> r == Err::<u64, ForestError>(ForestError::Ragged),
        is_rect(grid(old(forest))) ==> match r {
            Ok(m) => (exists|x: int, y: int|
                0 <= x < grid(old(forest))[0].len() && 0 <= y < grid(old(forest)).len() && scenic(
                    grid(old(forest)),
                    x,
                    y,
                ) == m) && forall|x: int, y: int|
                0 <= x < grid(old(forest))[0].len() && 0 <= y < grid(old(forest)).len() ==> scenic(
                    grid(old(forest)),
                    x,
                    y,
                ) <= m,
            Err(e) => e == ForestError::TooLarge && exists|x: int, y: int|
                0 <= x < grid(old(forest))[0].len() && 0 <= y < grid(old(forest)).len() && scenic(
                    grid(old(forest)),
                    x,
                    y,
                ) > u64::MAX,
        },
{
    let ghost g = grid(forest);
    match forest.get_distances() {
        Ok(()) => {},
        Err(e) => {
            return Err(e);
        },
    }
    let w = forest.0[0].len();
    let h = forest.0.len();
    let ghost f = grid(forest);
    assert(f[0] == forest.0@[0]@);
    assert forall|k: int, x: int| 0 <= k < h && 0 <= x < w implies #[trigger] f[k][x] == (Tree {
        height: g[k][x].height,
        views: views_at(g, x, k),
    }) by {
        assert(f[k].len() == w);
    }
    let mut best: u64 = 0;
    let mut y: usize = 0;
    while y < h
        invariant
            g == grid(old(forest)),
            is_rect(g),
            h == g.len(),
            w == g[0].len(),
            f == grid(forest),
            f.len() == h,
            forall|k: int| 0 <= k < h ==> #[trigger] f[k].len() == w,
            forall|k: int, x: int|
                0 <= k < h && 0 <= x < w ==> #[trigger] f[k][x] == (Tree {
                    height: g[k][x].height,
                    views: views_at(g, x, k),
                }),
            y <= h,
            forall|k: int, x: int| 0 <= k < y && 0 <= x < w ==> scenic(g, x, k) <= best,
            y > 0 ==> exists|i: int, k: int| 0 <= i < w && 0 <= k < y && scenic(g, i, k) == best,
        decreases h - y,
    {
        assert(f[y as int] == forest.0@[y as int]@);
        let mut x: usize = 0;
        while x < w
            invariant
                g == grid(old(forest)),
                is_rect(g),
                h == g.len(),
                w == g[0].len(),
                f == grid(forest),
                f.len() == h,
                forall|k: int| 0 <= k < h ==> #[trigger] f[k].len() == w,
                forall|k: int, x: int|
                    0 <= k < h && 0 <= x < w ==> #[trigger] f[k][x] == (Tree {
                        height: g[k][x].height,
                        views: views_at(g, x, k),
                    }),
                f[y as int] == forest.0@[y as int]@,
                y < h,
                x <= w,
                forall|k: int, i: int|
                    0 <= k < h && 0 <= i < w && (k < y || (k == y && i < x)) ==> scenic(g, i, k) <= best,
                (y > 0 || x > 0) ==> exists|i: int, k: int|
                    0 <= i < w && 0 <= k <= y && scenic(g, i, k) == best,
            decreases w - x,
        {
            let t = forest.0[y][x];
            assert(t == f[y as int][x as int]);
            proof {
                assert(row_heights(g, y as int).len() == w);
                assert(col_heights(g, x as int).len() == h);
                lemma_look_bounds(row_heights(g, y as int), x as int, x - 1);
                lemma_look_bounds(row_heights(g, y as int), x as int, x + 1);
                lemma_look_bounds(col_heights(g, x as int), y as int, y - 1);
                lemma_look_bounds(col_heights(g, x as int), y as int, y + 1);
            }
            let (l, rt, u, d) = match (t.views.left, t.views.right, t.views.up, t.views.down) {
                (Some(l), Some(rt), Some(u), Some(d)) => (l, rt, u, d),
                _ => {
                    return Err(ForestError::Empty);
                },
            };
            match product4(l, rt, u, d) {
                None => {
                    assert(scenic(g, x as int, y as int) > u64::MAX);
                    return Err(ForestError::TooLarge);
                },
                Some(p) => {
                    assert(scenic(g, x as int, y as int) == p);
                    if p > best || (y == 0 && x == 0) {
                        best = p;
                    }
                },
            }
            x = x + 1;
        }
        y = y + 1;
    }
    Ok(best)
}

proof fn lemma_rows_fail(ls: Seq<Seq<char>>, i: int)
    requires
        0 <= i <= ls.len(),
        rows_of(ls.take(i)) is None,
    ensures
        rows_of(ls) is None,
    decreases ls.len() - i,
{
    if i < ls.len() {
        assert(ls.take(i + 1).drop_last() =~= ls.take(i));
        lemma_rows_fail(ls, i + 1);
    } else {
        assert(ls.take(i) =~= ls);
    }
}

} // verus!
