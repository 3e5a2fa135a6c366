use vstd::prelude::*;
use crate::model::{
    Entry, Fault, Session, at, change_dir, dot_dot, first_dir, insert, is_dir_path, is_path,
    names_along, pending, preorder, preorder_all, root_dir, size_of, sizes_of, slash,
    lemma_at_push, lemma_dir_path_step, lemma_file_has_no_dir_path, lemma_first_dir,
    lemma_insert_target, lemma_prefix_is_dir_path, lemma_preorder_all_cons,
    lemma_preorder_sizes_bounded, lemma_sizes_prefix,
};
use crate::queries::{
    QueryError, dir_sizes, nats, needed_for, smallest_at_least, smallest_directory_at_least,
    space_needed, sum_at_most, sum_of_directories_at_most, lemma_smallest_nonpositive,
};
use crate::transcript::{
    BuildError, Command, Failure, chars_of, line_bounds, lines, parse_line, run, same_text,
    transcript_tree, lemma_run_failure_stays, lemma_run_step,
};

verus! {

/// A file of the owned tree.
#[derive(Debug)]
pub struct File {
    pub name: String,
    pub size: u32,
}

/// A directory of the owned tree: it owns its children, in the order they
/// were added. The way back up is the path held by the cursor.
#[derive(Debug)]
pub struct Dir {
    pub name: String,
    pub children: Vec<Item>,
}

/// A node of the owned tree.
#[derive(Debug)]
pub enum Item {
    Dir(Dir),
    File(File),
}

impl Dir {
    pub open spec fn view(&self) -> Entry
        decreases self,
    {
        Entry::Dir { name: self.name@, children: items_view(self.children@) }
    }
}

impl Item {
    pub open spec fn view(&self) -> Entry
        decreases self,
    {
        match self {
            Item::Dir(d) => d.view(),
            Item::File(f) => Entry::File { name: f.name@, size: f.size as nat },
        }
    }
}

pub open spec fn items_view(s: Seq<Item>) -> Seq<Entry>
    decreases s,
{
    if s.len() == 0 {
        Seq::empty()
    } else {
        items_view(s.drop_last()).push(s.last().view())
    }
}

pub proof fn lemma_items_view(s: Seq<Item>)
    ensures
        items_view(s).len() == s.len(),
        forall|k: int| 0 <= k < s.len() ==> #[trigger] items_view(s)[k] == s[k].view(),
    decreases s.len(),
{
    if s.len() > 0 {
        lemma_items_view(s.drop_last());
    }
}

impl Item {
    /// Size of a file, or total size of the files below a directory.
    pub fn size(&self) -> (r: u64)
        requires
            size_of(self.view()) <= u64::MAX,
        ensures
            r == size_of(self.view()),
        decreases self,
    {
        match self {
            Item::File(f) => f.size as u64,
            Item::Dir(d) => d.size(),
        }
    }

    pub fn name(&self) -> (r: &str)
        ensures
            r@ == self.view().name(),
    {
        match self {
            Item::File(f) => f.name.as_str(),
            Item::Dir(d) => d.name.as_str(),
        }
    }
}

/// The models of a sequence of borrowed nodes.
pub open spec fn ref_views(s: Seq<&Item>) -> Seq<Entry> {
    s.map_values(|x: &Item| x.view())
}

impl Item {
    /// The nodes of this tree in pre-order, found with an explicit work list:
    /// a node is taken from the top, and a directory's children go on the
    /// list in reverse so that they come off in declaration order.
    pub fn iter(&self) -> (r: Vec<&Item>)
        ensures
            ref_views(r@) == preorder(self.view()),
    {
        let mut out: Vec<&Item> = Vec::new();
        let mut stack: Vec<&Item> = Vec::new();
        stack.push(self);
        proof {
            assert(ref_views(stack@) =~= seq![self.view()]);
            assert(seq![self.view()].drop_last() =~= Seq::<Entry>::empty());
            assert(seq![self.view()].last() == self.view());
            assert(pending(Seq::<Entry>::empty()) =~= Seq::<Entry>::empty());
            assert(pending(seq![self.view()]) =~= preorder(self.view()));
            assert(ref_views(out@) =~= Seq::<Entry>::empty());
        }
        while stack.len() > 0
            invariant
                ref_views(out@) + pending(ref_views(stack@)) == preorder(self.view()),
            decreases preorder(self.view()).len() - out.len(),
        {
            let ghost st = ref_views(stack@);
            let t = stack.pop().unwrap();
            let ghost rest = ref_views(stack@);
            proof {
                assert(st.drop_last() =~= rest);
                assert(st.last() == t.view());
                assert(ref_views(out@.push(t)) =~= ref_views(out@).push(t.view()));
            }
            out.push(t);
            match t {
                Item::File(_) => {
                    assert(ref_views(out@) + pending(ref_views(stack@)) =~= preorder(self.view()));
                },
                Item::Dir(d) => {
                    let ghost kids = t.view().kids();
                    proof {
                        lemma_items_view(d.children@);
                    }
                    let n = d.children.len();
                    let mut j: usize = n;
                    assert(kids.subrange(n as int, n as int) =~= Seq::<Entry>::empty());
                    while j > 0
                        invariant
                            j <= n == d.children.len() == kids.len(),
                            kids == t.view().kids(),
                            forall|i: int| 0 <= i < n ==> #[trigger] kids[i] == d.children@[i].view(),
                            pending(ref_views(stack@)) == preorder_all(kids.subrange(j as int, n as int))
                                + pending(rest),
                        decreases j,
                    {
                        let ghost before = ref_views(stack@);
                        stack.push(&d.children[j - 1]);
                        proof {
                            assert(ref_views(stack@) =~= before.push(kids[j - 1]));
                            assert(ref_views(stack@).drop_last() =~= before);
                            assert(kids.subrange(j - 1, n as int) =~= seq![kids[j - 1]] + kids.subrange(j as int, n as int));
                            lemma_preorder_all_cons(kids[j - 1], kids.subrange(j as int, n as int));
                        }
                        j = j - 1;
                    }
                    assert(kids.subrange(0, n as int) =~= kids);
                    assert(ref_views(out@) + pending(ref_views(stack@)) =~= preorder(self.view()));
                },
            }
        }
        assert(ref_views(stack@) =~= Seq::<Entry>::empty());
        assert(ref_views(out@) =~= preorder(self.view()));
        out
    }
}

impl Item {
    /// Appends the nodes of this tree to `out` in pre-order, by recursion:
    /// the node itself, then each child's tree in declaration order.
    pub fn visit_into<'a>(&'a self, out: &mut Vec<&'a Item>)
        ensures
            ref_views(final(out)@) == ref_views(old(out)@) + preorder(self.view()),
        decreases self,
    {
        let ghost start = ref_views(out@);
        out.push(self);
        assert(ref_views(out@) =~= start.push(self.view()));
        match self {
            Item::File(_) => {
                assert(ref_views(out@) =~= start + preorder(self.view()));
            },
            Item::Dir(d) => {
                let ghost kids = self.view().kids();
                proof {
                    lemma_items_view(d.children@);
                }
                let mut k: usize = 0;
                assert(kids.take(0) =~= Seq::<Entry>::empty());
                assert(ref_views(out@) =~= start + seq![self.view()] + preorder_all(kids.take(0)));
                while k < d.children.len()
                    invariant
                        *self == Item::Dir(*d),
                        kids == self.view().kids(),
                        kids.len() == d.children.len(),
                        forall|i: int| 0 <= i < kids.len() ==> #[trigger] kids[i] == d.children@[i].view(),
                        k <= kids.len(),
                        ref_views(out@) == start + seq![self.view()] + preorder_all(kids.take(k as int)),
                    decreases d.children.len() - k,
                {
                    assert(kids[k as int] == d.children@[k as int].view());
                    d.children[k].visit_into(out);
                    assert(kids.take(k + 1).drop_last() =~= kids.take(k as int));
                    assert(kids.take(k + 1).last() == kids[k as int]);
                    k = k + 1;
                }
                assert(kids.take(k as int) =~= kids);
                assert(ref_views(out@) =~= start + preorder(self.view()));
            },
        }
    }

    /// The nodes of this tree in pre-order, by recursive visiting.
    pub fn collect(&self) -> (r: Vec<&Item>)
        ensures
            ref_views(r@) == preorder(self.view()),
    {
        let mut out: Vec<&Item> = Vec::new();
        self.visit_into(&mut out);
        assert(ref_views(out@) =~= preorder(self.view()));
        out
    }
}

impl Item {
    /// Visits the nodes in pre-order, calling `visit` on each, and stops at
    /// the first one for which it breaks.
    pub fn try_for_each<T, F: Fn(&Item) -> std::ops::ControlFlow<T>>(&self, visit: &F) -> (r:
        std::ops::ControlFlow<T>)
        requires
            forall|x: &Item| #[trigger] visit.requires((x,)),
        ensures
            exists|nodes: Seq<&Item>|
                {
                    &&& ref_views(nodes) == preorder(self.view())
                    &&& match r {
                        std::ops::ControlFlow::Continue(_) => forall|i: int|
                            0 <= i < nodes.len() ==> visit.ensures(
                                (#[trigger] nodes[i],),
                                std::ops::ControlFlow::Continue(()),
                            ),
                        std::ops::ControlFlow::Break(v) => exists|k: int|
                            0 <= k < nodes.len() && visit.ensures(
                                (nodes[k],),
                                std::ops::ControlFlow::Break(v),
                            ) && forall|i: int|
                                0 <= i < k ==> visit.ensures(
                                    (#[trigger] nodes[i],),
                                    std::ops::ControlFlow::Continue(()),
                                ),
                    }
                },
    {
        let nodes = self.iter();
        let mut i: usize = 0;
        while i < nodes.len()
            invariant
                forall|x: &Item| #[trigger] visit.requires((x,)),
                ref_views(nodes@) == preorder(self.view()),
                i <= nodes.len(),
                forall|j: int|
                    0 <= j < i ==> visit.ensures(
                        (#[trigger] nodes@[j],),
                        std::ops::ControlFlow::Continue(()),
                    ),
            decreases nodes.len() - i,
        {
            let n = nodes[i];
            let step = visit(n);
            assert(visit.ensures((nodes@[i as int],), step));
            match step {
                std::ops::ControlFlow::Break(v) => {
                    assert(ref_views(nodes@) == preorder(self.view()));
                    return std::ops::ControlFlow::Break(v);
                },
                std::ops::ControlFlow::Continue(u) => {
                    assert(step == std::ops::ControlFlow::<T, ()>::Continue(()));
                },
            }
            i = i + 1;
        }
        std::ops::ControlFlow::Continue(())
    }

    /// The first value that `f` gives, visiting the nodes in pre-order and
    /// stopping there.
    pub fn find_map<T, F: Fn(&Item) -> Option<T>>(&self, f: &F) -> (r: Option<T>)
        requires
            forall|x: &Item| #[trigger] f.requires((x,)),
        ensures
            exists|nodes: Seq<&Item>|
                {
                    &&& ref_views(nodes) == preorder(self.view())
                    &&& match r {
                        None => forall|i: int|
                            0 <= i < nodes.len() ==> f.ensures((#[trigger] nodes[i],), None),
                        Some(v) => exists|k: int|
                            0 <= k < nodes.len() && f.ensures((nodes[k],), Some(v)) && forall|i: int|
                                0 <= i < k ==> f.ensures((#[trigger] nodes[i],), None),
                    }
                },
    {
        let nodes = self.iter();
        let mut i: usize = 0;
        while i < nodes.len()
            invariant
                forall|x: &Item| #[trigger] f.requires((x,)),
                ref_views(nodes@) == preorder(self.view()),
                i <= nodes.len(),
                forall|j: int| 0 <= j < i ==> f.ensures((#[trigger] nodes@[j],), None),
            decreases nodes.len() - i,
        {
            let n = nodes[i];
            let found = f(n);
            assert(f.ensures((nodes@[i as int],), found));
            if found.is_some() {
                assert(ref_views(nodes@) == preorder(self.view()));
                return found;
            }
            i = i + 1;
        }
        None
    }
}

impl File {
    pub fn new(name: &str, size: u32) -> (r: File)
        ensures
            r.name@ == name@,
            r.size == size,
    {
        File { name: name.to_owned(), size }
    }
}

impl Dir {
    /// An empty directory.
    pub fn new(name: &str) -> (r: Dir)
        ensures
            r.view() == (Entry::Dir { name: name@, children: Seq::empty() }),
    {
        Dir { name: name.to_owned(), children: Vec::new() }
    }

    /// An empty directory named `/`.
    pub fn root() -> (r: Dir)
        ensures
            r.view() == crate::model::root_dir(),
    {
        let r = Dir::new("/");
        proof {
            reveal_strlit("/");
        }
        assert(r.name@ =~= slash());
        r
    }

    /// Appends `item` to the children.
    pub fn add_child(&mut self, item: Item)
        ensures
            final(self).view() == (Entry::Dir {
                name: old(self).view().name(),
                children: old(self).view().kids().push(item.view()),
            }),
    {
        let ghost before = self.children@;
        self.children.push(item);
        proof {
            lemma_items_view(before);
            lemma_items_view(self.children@);
            assert(items_view(self.children@) =~= items_view(before).push(item.view()));
        }
    }

    /// Total size of the files below this directory, recomputed on every call.
    pub fn size(&self) -> (r: u64)
        requires
            size_of(self.view()) <= u64::MAX,
        ensures
            r == size_of(self.view()),
        decreases self,
    {
        let ghost cs = self.view().kids();
        proof {
            lemma_items_view(self.children@);
        }
        let mut sum: u64 = 0;
        let mut k: usize = 0;
        assert(cs.take(0) =~= Seq::<Entry>::empty());
        while k < self.children.len()
            invariant
                cs == self.view().kids(),
                cs.len() == self.children.len(),
                forall|j: int| 0 <= j < cs.len() ==> #[trigger] cs[j] == self.children@[j].view(),
                sizes_of(cs) <= u64::MAX,
                k <= cs.len(),
                sum == sizes_of(cs.take(k as int)),
            decreases self.children.len() - k,
        {
            proof {
                lemma_sizes_prefix(cs, k as int);
                assert(cs[k as int] == self.children@[k as int].view());
            }
            let z = self.children[k].size();
            sum = sum + z;
            k = k + 1;
        }
        assert(cs.take(k as int) =~= cs);
        sum
    }

    /// The directory at `path[depth..]` below this one.
    pub fn dir_at(&self, path: &Vec<usize>, depth: usize) -> (r: &Dir)
        requires
            depth <= path.len(),
            is_dir_path(self.view(), path@.skip(depth as int)),
        ensures
            r.view() == at(self.view(), path@.skip(depth as int)),
        decreases path.len() - depth,
    {
        let ghost p = path@.skip(depth as int);
        if depth == path.len() {
            assert(p.len() == 0);
            self
        } else {
            let k = path[depth];
            proof {
                lemma_items_view(self.children@);
                assert(p[0] == k);
                assert(p.drop_first() =~= path@.skip(depth + 1));
                lemma_dir_path_step(self.view(), p);
                assert(self.view().kids()[k as int] == self.children@[k as int].view());
            }
            match &self.children[k] {
                Item::Dir(d) => d.dir_at(path, depth + 1),
                Item::File(_) => {
                    proof {
                        lemma_file_has_no_dir_path(self.view().kids()[k as int], p.drop_first());
                    }
                    self
                },
            }
        }
    }

    /// Position of the first subdirectory named `name`.
    pub fn find_dir(&self, name: &str) -> (r: Option<usize>)
        ensures
            r is None <==> first_dir(self.view().kids(), name@) is None,
            r matches Some(k) ==> first_dir(self.view().kids(), name@) == Some(k as nat),
    {
        let ghost cs = self.view().kids();
        proof {
            lemma_items_view(self.children@);
            lemma_first_dir(cs, name@);
        }
        let n = self.children.len();
        let mut k: usize = 0;
        while k < n
            invariant
                n == self.children.len() == cs.len(),
                cs == self.view().kids(),
                k <= n,
                forall|j: int| 0 <= j < k ==> !(cs[j] is Dir && cs[j].name() == name@),
                forall|j: int| 0 <= j < n ==> #[trigger] cs[j] == self.children@[j].view(),
                first_dir(cs, name@) matches Some(f) ==> f < cs.len() && cs[f as int] is Dir
                    && cs[f as int].name() == name@
                    && forall|j: int| 0 <= j < f ==> !(cs[j] is Dir && cs[j].name() == name@),
                first_dir(cs, name@) is None ==> forall|j: int|
                    0 <= j < cs.len() ==> !(cs[j] is Dir && cs[j].name() == name@),
            decreases n - k,
        {
            match &self.children[k] {
                Item::Dir(d) => {
                    assert(cs[k as int] == self.children@[k as int].view());
                    if same_text(d.name.as_str(), name) {
                        return Some(k);
                    }
                },
                Item::File(_) => {
                    assert(cs[k as int] == self.children@[k as int].view());
                },
            }
            k = k + 1;
        }
        None
    }

    /// Moves `cursor`, a path from this directory, by `cd name`: `/` leads
    /// here, `..` one level up, another name into the first subdirectory of
    /// that name.
    pub fn cd(&self, cursor: &mut Vec<usize>, name: &str) -> (r: Result<(), Fault>)
        requires
            is_dir_path(self.view(), old(cursor)@),
        ensures
            match change_dir(self.view(), old(cursor)@, name@) {
                Ok(p) => r is Ok && final(cursor)@ == p,
                Err(f) => r == Err::<(), Fault>(f) && final(cursor)@ == old(cursor)@,
            },
            is_dir_path(self.view(), final(cursor)@),
    {
        proof {
            reveal_strlit("/");
            reveal_strlit("..");
        }
        let is_slash = same_text(name, "/");
        assert("/"@ =~= slash());
        if is_slash {
            cursor.clear();
            assert(cursor@ =~= Seq::<usize>::empty());
            assert(is_dir_path(self.view(), Seq::empty()));
            return Ok(());
        }
        let is_up = same_text(name, "..");
        assert(".."@ =~= dot_dot());
        if is_up {
            if cursor.len() == 0 {
                return Err(Fault::NoParent);
            }
            proof {
                lemma_prefix_is_dir_path(self.view(), cursor@);
            }
            cursor.pop();
            return Ok(());
        }
        assert(cursor@.skip(0) =~= cursor@);
        let cwd = self.dir_at(cursor, 0);
        match cwd.find_dir(name) {
            Some(k) => {
                proof {
                    lemma_first_dir(cwd.view().kids(), name@);
                    lemma_items_view(cwd.children@);
                    lemma_at_push(self.view(), cursor@, k);
                    assert(first_dir(cwd.view().kids(), name@) == Some(k as nat));
                    assert(cwd.view().kids()[k as int] is Dir);
                    assert(at(self.view(), cursor@.push(k)) is Dir);
                }
                cursor.push(k);
                Ok(())
            },
            None => Err(Fault::NoSuchDir),
        }
    }

    /// Names from this directory down to the node at `path`: the node's
    /// absolute path when this directory is the root.
    pub fn abspath(&self, path: &Vec<usize>) -> (r: Vec<String>)
        requires
            is_path(self.view(), path@),
        ensures
            r@.map_values(|s: String| s@) == names_along(self.view(), path@),
    {
        let mut out: Vec<String> = Vec::new();
        assert(path@.skip(0) =~= path@);
        self.names_into(path, 0, &mut out);
        assert(out@.map_values(|s: String| s@) =~= names_along(self.view(), path@));
        out
    }

    fn names_into(&self, path: &Vec<usize>, depth: usize, out: &mut Vec<String>)
        requires
            depth <= path.len(),
            is_path(self.view(), path@.skip(depth as int)),
        ensures
            final(out)@.map_values(|s: String| s@) == old(out)@.map_values(|s: String| s@)
                + names_along(self.view(), path@.skip(depth as int)),
        decreases path.len() - depth,
    {
        let ghost start = out@.map_values(|s: String| s@);
        let ghost p = path@.skip(depth as int);
        out.push(self.name.clone());
        assert(out@.map_values(|s: String| s@) =~= start.push(self.name@));
        if depth == path.len() {
            assert(p.len() == 0);
            assert(out@.map_values(|s: String| s@) =~= start + names_along(self.view(), p));
        } else {
            let k = path[depth];
            proof {
                lemma_items_view(self.children@);
                assert(p[0] == k);
                assert(p.drop_first() =~= path@.skip(depth + 1));
            }
            let ghost mid = out@.map_values(|s: String| s@);
            match &self.children[k] {
                Item::Dir(d) => {
                    assert(self.view().kids()[k as int] == d.view());
                    d.names_into(path, depth + 1, out);
                },
                Item::File(f) => {
                    let ghost e = self.view().kids()[k as int];
                    assert(e == self.children@[k as int].view());
                    assert(is_path(e, p.drop_first()));
                    assert(e.kids().len() == 0);
                    assert(p.drop_first().len() == 0);
                    out.push(f.name.clone());
                    assert(out@.map_values(|s: String| s@) =~= mid.push(f.name@));
                    assert(names_along(e, p.drop_first()) == seq![f.name@]);
                },
            }
            assert(out@.map_values(|s: String| s@) =~= start + names_along(self.view(), p));
        }
    }

    /// Path of the parent of the node at `path`; the root has none.
    pub fn parent_path(path: &Vec<usize>) -> (r: Option<Vec<usize>>)
        ensures
            path@.len() == 0 ==> r is None,
            path@.len() > 0 ==> (r matches Some(q) && q@ == path@.drop_last()),
    {
        if path.len() == 0 {
            None
        } else {
            let mut q = path.clone();
            q.pop();
            Some(q)
        }
    }

    /// Appends `item` to the directory at `path[depth..]` below this one.
    pub fn insert_at(&mut self, path: &Vec<usize>, depth: usize, item: Item)
        requires
            depth <= path.len(),
            is_dir_path(old(self).view(), path@.skip(depth as int)),
        ensures
            final(self).view() == insert(old(self).view(), path@.skip(depth as int), item.view()),
        decreases path.len() - depth,
    {
        let ghost p = path@.skip(depth as int);
        if depth == path.len() {
            assert(p.len() == 0);
            self.add_child(item);
        } else {
            let k = path[depth];
            let ghost before = self.children@;
            proof {
                lemma_items_view(before);
                assert(p[0] == k);
                assert(p.drop_first() =~= path@.skip(depth + 1));
                lemma_dir_path_step(self.view(), p);
                assert(self.view().kids()[k as int] == before[k as int].view());
            }
            match &mut self.children[k] {
                Item::Dir(d) => {
                    d.insert_at(path, depth + 1, item);
                },
                Item::File(f) => {
                    proof {
                        lemma_file_has_no_dir_path(before[k as int].view(), p.drop_first());
                    }
                },
            }
            proof {
                lemma_items_view(self.children@);
                assert(items_view(self.children@) =~= items_view(before).update(
                    k as int,
                    self.children@[k as int].view(),
                ));
            }
        }
    }
}

/// Builds the owned tree that the transcript `input` describes.
pub fn parse_input(input: &str) -> (r: Result<Dir, BuildError>)
    ensures
        r matches Ok(d) ==> size_of(d.view()) <= u64::MAX,
        match transcript_tree(input@) {
            Ok(t) => r matches Ok(d) && d.view() == t,
            Err(f) => r matches Err(e) && e@ == f,
        },
{
    let cs = chars_of(input);
    let bounds = line_bounds(&cs);
    let ghost ls = lines(input@);
    let mut root: Option<Dir> = None;
    let mut cursor: Vec<usize> = Vec::new();
    let mut total: u64 = 0;
    let mut i: usize = 0;
    assert(ls.take(0) =~= Seq::<Seq<char>>::empty());
    while i < bounds.len()
        invariant
            cs@ == input@,
            ls == lines(input@),
            bounds.len() == ls.len(),
            forall|k: int|
                0 <= k < bounds.len() ==> (#[trigger] bounds[k]).0 <= bounds[k].1 <= cs.len()
                    && cs@.subrange(bounds[k].0 as int, bounds[k].1 as int) == ls[k],
            i <= bounds.len(),
            run(ls.take(i as int)) == Ok::<Session, Failure>(
                Session {
                    root: match root {
                        Some(d) => Some(d.view()),
                        None => None,
                    },
                    cwd: cursor@,
                },
            ),
            match root {
                Some(d) => is_dir_path(d.view(), cursor@) && total == size_of(d.view()),
                None => cursor@.len() == 0,
            },
        decreases bounds.len() - i,
    {
        let (a, b) = bounds[i];
        proof {
            lemma_run_step(ls, i as int);
        }
        let cmd = match parse_line(input, &cs, a, b) {
            Some(c) => c,
            None => {
                proof {
                    lemma_run_failure_stays(ls, i + 1);
                }
                return Err(BuildError::Parse(input.substring_char(a, b).to_owned()));
            },
        };
        match cmd {
            Command::RootChange => {
                if root.is_none() {
                    root = Some(Dir::root());
                    total = 0;
                }
                cursor.clear();
                assert(cursor@ =~= Seq::<usize>::empty());
            },
            _ => {
                let ghost old_cursor = cursor@;
                match &mut root {
                    None => {
                        proof {
                            lemma_run_failure_stays(ls, i + 1);
                        }
                        return Err(BuildError::Nav(Fault::Uninitialized));
                    },
                    Some(d) => {
                        match cmd {
                            Command::ChangeDir(n) => {
                                if let Err(f) = d.cd(&mut cursor, n.as_str()) {
                                    proof {
                                        lemma_run_failure_stays(ls, i + 1);
                                    }
                                    return Err(BuildError::Nav(f));
                                }
                            },
                            Command::DirEntry(n) => {
                                let item = Item::Dir(Dir::new(n.as_str()));
                                assert(cursor@.skip(0) =~= cursor@);
                                proof {
                                    lemma_insert_target(d.view(), cursor@, item.view());
                                }
                                d.insert_at(&cursor, 0, item);
                            },
                            Command::FileEntry(n, z) => {
                                if total > u64::MAX - z as u64 {
                                    proof {
                                        lemma_run_failure_stays(ls, i + 1);
                                    }
                                    return Err(BuildError::Nav(Fault::TooLarge));
                                }
                                let item = Item::File(File::new(n.as_str(), z));
                                assert(cursor@.skip(0) =~= cursor@);
                                proof {
                                    lemma_insert_target(d.view(), cursor@, item.view());
                                }
                                d.insert_at(&cursor, 0, item);
                                total = total + z as u64;
                            },
                            _ => {},
                        }
                    },
                }
            },
        }
        i = i + 1;
    }
    assert(ls.take(bounds.len() as int) =~= ls);
    match root {
        Some(d) => Ok(d),
        None => Err(BuildError::Nav(Fault::Uninitialized)),
    }
}

/// The sizes of the directories among `nodes`, in order.
pub fn dir_sizes_of(nodes: &Vec<&Item>) -> (r: Vec<u64>)
    requires
        forall|i: int| 0 <= i < nodes.len() ==> size_of(#[trigger] nodes@[i].view()) <= u64::MAX,
    ensures
        nats(r@) == dir_sizes(ref_views(nodes@)),
{
    let ghost vs = ref_views(nodes@);
    let mut out: Vec<u64> = Vec::new();
    let mut i: usize = 0;
    assert(vs.take(0) =~= Seq::<Entry>::empty());
    assert(nats(out@) =~= Seq::<nat>::empty());
    while i < nodes.len()
        invariant
            vs == ref_views(nodes@),
            forall|i: int| 0 <= i < nodes.len() ==> size_of(#[trigger] nodes@[i].view()) <= u64::MAX,
            i <= nodes.len(),
            nats(out@) == dir_sizes(vs.take(i as int)),
        decreases nodes.len() - i,
    {
        assert(vs.take(i + 1).drop_last() =~= vs.take(i as int));
        assert(vs.take(i + 1).last() == nodes@[i as int].view());
        let n = nodes[i];
        match n {
            Item::Dir(_) => {
                let z = n.size();
                let ghost before = out@;
                out.push(z);
                assert(nats(out@) =~= nats(before).push(z as nat));
            },
            Item::File(_) => {},
        }
        i = i + 1;
    }
    assert(vs.take(i as int) =~= vs);
    out
}

/// Every node of a pre-order listing of `root` is no larger than `root`.
proof fn lemma_listing_bounded(root: &Item, nodes: Seq<&Item>)
    requires
        ref_views(nodes) == preorder(root.view()),
    ensures
        forall|i: int| 0 <= i < nodes.len() ==> size_of(#[trigger] nodes[i].view()) <= size_of(root.view()),
{
    lemma_preorder_sizes_bounded(root.view());
    assert forall|i: int| 0 <= i < nodes.len() implies size_of(#[trigger] nodes[i].view()) <= size_of(root.view()) by {
        assert(ref_views(nodes)[i] == nodes[i].view());
    }
}

/// Sum of the sizes of the directories of at most `size_limit`, walking
/// the tree with the explicit work list.
pub fn part1_iter(root: &Item, size_limit: u64) -> (r: u128)
    requires
        size_of(root.view()) <= u64::MAX,
    ensures
        r == sum_at_most(dir_sizes(preorder(root.view())), size_limit as nat),
{
    let nodes = root.iter();
    proof {
        lemma_listing_bounded(root, nodes@);
    }
    let sizes = dir_sizes_of(&nodes);
    sum_of_directories_at_most(&sizes, size_limit)
}

/// As `part1_iter`, walking the tree by recursive visiting.
pub fn part1_internal_iter(root: &Item, size_limit: u64) -> (r: u128)
    requires
        size_of(root.view()) <= u64::MAX,
    ensures
        r == sum_at_most(dir_sizes(preorder(root.view())), size_limit as nat),
{
    let nodes = root.collect();
    proof {
        lemma_listing_bounded(root, nodes@);
    }
    let sizes = dir_sizes_of(&nodes);
    sum_of_directories_at_most(&sizes, size_limit)
}

/// Size of the smallest directory whose removal leaves `FREE_MIN` free on a
/// device of `FS_SIZE`, walking the tree with the explicit work list.
pub fn part2_iter(root: &Item) -> (r: Result<u64, QueryError>)
    requires
        size_of(root.view()) <= u64::MAX,
    ensures
        match smallest_at_least(dir_sizes(preorder(root.view())), space_needed(size_of(root.view()))) {
            Some(v) => r == Ok::<u64, QueryError>(v as u64),
            None => r == Err::<u64, QueryError>(QueryError::NotFound),
        },
{
    let nodes = root.iter();
    proof {
        lemma_listing_bounded(root, nodes@);
    }
    let sizes = dir_sizes_of(&nodes);
    let needed = needed_for(root.size());
    proof {
        if space_needed(size_of(root.view())) <= 0 {
            lemma_smallest_nonpositive(nats(sizes@), space_needed(size_of(root.view())));
        }
    }
    smallest_directory_at_least(&sizes, needed)
}

/// As `part2_iter`, walking the tree by recursive visiting.
pub fn part2_internal_iter(root: &Item) -> (r: Result<u64, QueryError>)
    requires
        size_of(root.view()) <= u64::MAX,
    ensures
        match smallest_at_least(dir_sizes(preorder(root.view())), space_needed(size_of(root.view()))) {
            Some(v) => r == Ok::<u64, QueryError>(v as u64),
            None => r == Err::<u64, QueryError>(QueryError::NotFound),
        },
{
    let nodes = root.collect();
    proof {
        lemma_listing_bounded(root, nodes@);
    }
    let sizes = dir_sizes_of(&nodes);
    let needed = needed_for(root.size());
    proof {
        if space_needed(size_of(root.view())) <= 0 {
            lemma_smallest_nonpositive(nats(sizes@), space_needed(size_of(root.view())));
        }
    }
    smallest_directory_at_least(&sizes, needed)
}

} // verus!
