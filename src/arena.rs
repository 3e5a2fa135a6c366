use vstd::prelude::*;
use crate::model::{
    Entry, Fault, Session, at, paths_from, preorder_paths, change_dir, dot_dot, first_dir, insert, is_dir_path, is_path,
    pending, preorder, preorder_all, root_dir, size_of, sizes_of, slash, lemma_at_push,
    lemma_first_dir, lemma_insert_other, lemma_insert_target, lemma_preorder_all_cons,
    lemma_preorder_sizes_bounded, lemma_sizes_prefix, file_total, lemma_size_is_file_total,
};
use crate::queries::{
    QueryError, dir_sizes, nats, needed_for, smallest_at_least, smallest_directory_at_least,
    space_needed, sum_at_most, sum_of_directories_at_most, lemma_smallest_nonpositive,
};
use crate::transcript::{
    BuildError, Command, Failure, chars_of, line_bounds, lines, parse_line, run, same_text,
    transcript_tree, lemma_run_failure_stays, lemma_run_step,
};

verus! {

/// A directory of the arena; links are indices into the arena.
#[derive(Debug)]
pub struct ArenaDir {
    pub parent: Option<usize>,
    pub children: Vec<usize>,
    pub name: String,
}

/// A file of the arena.
#[derive(Debug)]
pub struct ArenaFile {
    pub parent: Option<usize>,
    pub name: String,
    pub size: u32,
}

#[derive(Debug)]
pub enum ArenaItem {
    Dir(ArenaDir),
    File(ArenaFile),
}

impl ArenaItem {
    pub open spec fn parent_spec(&self) -> Option<usize> {
        match self {
            ArenaItem::Dir(d) => d.parent,
            ArenaItem::File(f) => f.parent,
        }
    }

    pub open spec fn children_spec(&self) -> Seq<usize> {
        match self {
            ArenaItem::Dir(d) => d.children@,
            ArenaItem::File(_) => Seq::empty(),
        }
    }

    pub open spec fn name_spec(&self) -> Seq<char> {
        match self {
            ArenaItem::Dir(d) => d.name@,
            ArenaItem::File(f) => f.name@,
        }
    }

    /// The node as it is when first stored: a directory without children.
    pub open spec fn leaf(&self) -> Entry {
        match self {
            ArenaItem::Dir(d) => Entry::Dir { name: d.name@, children: Seq::empty() },
            ArenaItem::File(f) => Entry::File { name: f.name@, size: f.size as nat },
        }
    }

    /// This item shows what the model node `e` shows locally.
    pub open spec fn matches_node(&self, e: Entry) -> bool {
        match self {
            ArenaItem::Dir(d) => e is Dir && e.name() == d.name@ && e.kids().len() == d.children.len(),
            ArenaItem::File(f) => e == (Entry::File { name: f.name@, size: f.size as nat }),
        }
    }

    pub fn name(&self) -> (r: &str)
        ensures
            r@ == self.name_spec(),
    {
        match self {
            ArenaItem::File(f) => f.name.as_str(),
            ArenaItem::Dir(d) => d.name.as_str(),
        }
    }

    pub fn set_parent(&mut self, parent_idx: usize)
        ensures
            final(self).parent_spec() == Some(parent_idx),
            final(self).children_spec() == old(self).children_spec(),
            final(self).leaf() == old(self).leaf(),
            (*final(self) is Dir) <==> (*old(self) is Dir),
    {
        match self {
            ArenaItem::File(f) => f.parent = Some(parent_idx),
            ArenaItem::Dir(d) => d.parent = Some(parent_idx),
        }
    }
}

impl ArenaDir {
    pub fn new(name: &str) -> (r: ArenaDir)
        ensures
            r.name@ == name@,
            r.parent is None,
            r.children@.len() == 0,
    {
        ArenaDir { name: name.to_owned(), parent: None, children: Vec::new() }
    }
}

impl ArenaFile {
    pub fn new(name: &str, size: u32) -> (r: ArenaFile)
        ensures
            r.name@ == name@,
            r.parent is None,
            r.size == size,
    {
        ArenaFile { name: name.to_owned(), parent: None, size }
    }
}

/// Nodes in one growable list, linked by index. The first node is the root.
/// Ghost state ties each index to a node of the model tree: `paths[i]` leads
/// from the root to node `i`, which is child number `slots[i]` of its parent.
pub struct Arena {
    items: Vec<ArenaItem>,
    model: Ghost<Entry>,
    paths: Ghost<Seq<Seq<usize>>>,
    slots: Ghost<Seq<usize>>,
}

impl Arena {
    /// The tree the arena holds.
    pub closed spec fn view(&self) -> Entry {
        self.model@
    }

    pub closed spec fn len(&self) -> nat {
        self.items@.len()
    }

    /// The model node at index `i`.
    pub closed spec fn node(&self, i: int) -> Entry {
        at(self.model@, self.paths@[i])
    }

    /// The stored item at index `i`.
    pub closed spec fn item(&self, i: int) -> ArenaItem {
        self.items@[i]
    }

    pub closed spec fn wf(&self) -> bool {
        let items = self.items@;
        let paths = self.paths@;
        let slots = self.slots@;
        let n = items.len();
        &&& paths.len() == n
        &&& slots.len() == n
        &&& n > 0 ==> {
            &&& self.model@ is Dir
            &&& paths[0] == Seq::<usize>::empty()
            &&& items[0] is Dir
        }
        &&& forall|i: int| 0 <= i < n ==> is_path(self.model@, #[trigger] paths[i])
        &&& forall|i: int| 0 <= i < n ==> (#[trigger] items[i]).matches_node(at(self.model@, paths[i]))
        &&& forall|i: int| 0 <= i < n ==> ((#[trigger] items[i]).parent_spec() is None <==> i == 0)
        &&& forall|i: int, k: int|
            0 <= i < n && 0 <= k < items[i].children_spec().len() ==> {
                let c = #[trigger] items[i].children_spec()[k] as int;
                &&& i < c < n
                &&& paths[c] == paths[i].push(k as usize)
                &&& items[c].parent_spec() == Some(i as usize)
                &&& slots[c] == k
            }
        &&& forall|i: int|
            0 < i < n ==> {
                let p = (#[trigger] items[i]).parent_spec()->Some_0 as int;
                &&& p < i
                &&& items[p] is Dir
                &&& slots[i] < items[p].children_spec().len()
                &&& items[p].children_spec()[slots[i] as int] == i
            }
        &&& forall|i: int, j: int| 0 <= i < n && 0 <= j < n && i != j ==> #[trigger] paths[i] != #[trigger] paths[j]
    }

    pub fn new() -> (r: Arena)
        ensures
            r.wf(),
            r.len() == 0,
    {
        Arena {
            items: Vec::new(),
            model: Ghost(Entry::Dir { name: Seq::empty(), children: Seq::empty() }),
            paths: Ghost(Seq::empty()),
            slots: Ghost(Seq::empty()),
        }
    }

    /// Path from the root to the node at index `i`.
    pub closed spec fn path(&self, i: int) -> Seq<usize> {
        self.paths@[i]
    }

    /// Stores `item` at the next index, as a child of `parent` (the first
    /// item, the root, has none), and returns that index.
    pub fn add_item(&mut self, item: ArenaItem, parent: Option<usize>) -> (r: usize)
        requires
            old(self).wf(),
            item.children_spec().len() == 0,
            item.parent_spec() is None,
            match parent {
                None => old(self).len() == 0 && item is Dir,
                Some(p) => p < old(self).len() && old(self).item(p as int) is Dir,
            },
        ensures
            final(self).wf(),
            r == old(self).len(),
            final(self).len() == old(self).len() + 1,
            final(self).node(r as int) == item.leaf(),
            match parent {
                None => final(self).view() == item.leaf(),
                Some(p) => final(self).view() == insert(old(self).view(), old(self).path(p as int), item.leaf())
                    && final(self).path(r as int) == old(self).path(p as int).push(
                        old(self).item(p as int).children_spec().len() as usize,
                    ),
            },
            forall|i: int| 0 <= i < old(self).len() ==> final(self).path(i) == old(self).path(i),
            final(self).item(r as int).parent_spec() == parent,
            final(self).item(r as int).leaf() == item.leaf(),
            final(self).item(r as int).children_spec() == Seq::<usize>::empty(),
            (final(self).item(r as int) is Dir) == (item is Dir),
            forall|i: int|
                0 <= i < old(self).len() && parent != Some(i as usize) ==> #[trigger] final(self).item(i)
                    == old(self).item(i),
            parent matches Some(p) ==> {
                &&& final(self).item(p as int).children_spec() == old(self).item(p as int).children_spec().push(r)
                &&& final(self).item(p as int).name_spec() == old(self).item(p as int).name_spec()
                &&& final(self).item(p as int).parent_spec() == old(self).item(p as int).parent_spec()
                &&& final(self).item(p as int) is Dir
            },
    {
        let idx = self.items.len();
        let ghost old_items = self.items@;
        let ghost model = self.model@;
        let ghost paths = self.paths@;
        let ghost slots = self.slots@;
        let mut item = item;
        match parent {
            None => {
                self.items.push(item);
                proof {
                    self.model@ = item.leaf();
                    self.paths@ = seq![Seq::<usize>::empty()];
                    self.slots@ = seq![0usize];
                    assert(at(self.model@, Seq::empty()) == self.model@);
                }
                idx
            },
            Some(p) => {
                item.set_parent(p);
                let ghost leaf = item.leaf();
                let ghost m = old_items[p as int].children_spec().len();
                let ghost pp = paths[p as int];
                self.items.push(item);
                match &mut self.items[p] {
                    ArenaItem::Dir(d) => {
                        d.children.push(idx);
                    },
                    ArenaItem::File(_) => {},
                }
                proof {
                    assert(is_dir_path(model, pp));
                    lemma_insert_target(model, pp, leaf);
                    let nm = insert(model, pp, leaf);
                    lemma_at_push(nm, pp, m as usize);
                    lemma_at_push(model, pp, m as usize);
                    self.model@ = nm;
                    self.paths@ = paths.push(pp.push(m as usize));
                    self.slots@ = slots.push(m as usize);
                    let items = self.items@;
                    let n = items.len();
                    assert(items[0] is Dir);
                    assert(self.paths@[0] == paths[0]);
                    assert forall|i: int| 0 <= i < n implies is_path(nm, #[trigger] self.paths@[i])
                        && items[i].matches_node(at(nm, self.paths@[i])) by {
                        if i == idx {
                        } else if i == p {
                        } else {
                            assert(paths[i] != pp);
                            lemma_insert_other(model, pp, leaf, paths[i]);
                            assert(items[i] == old_items[i]);
                        }
                    }
                    assert forall|i: int, k: int|
                        0 <= i < n && 0 <= k < items[i].children_spec().len() implies {
                            let c = #[trigger] items[i].children_spec()[k] as int;
                            &&& i < c < n
                            &&& self.paths@[c] == self.paths@[i].push(k as usize)
                            &&& items[c].parent_spec() == Some(i as usize)
                            &&& self.slots@[c] == k
                        } by {
                        if i == p && k == m {
                        } else {
                            assert(items[i].children_spec()[k] == old_items[i].children_spec()[k]);
                        }
                    }
                    assert forall|i: int| 0 < i < n implies {
                        let q = (#[trigger] items[i]).parent_spec()->Some_0 as int;
                        &&& q < i
                        &&& items[q] is Dir
                        &&& self.slots@[i] < items[q].children_spec().len()
                        &&& items[q].children_spec()[self.slots@[i] as int] == i
                    } by {
                        if i < idx {
                            let q = old_items[i].parent_spec()->Some_0 as int;
                            assert(items[i].parent_spec() == old_items[i].parent_spec());
                            if q == p {
                                assert(items[q].children_spec()[self.slots@[i] as int]
                                    == old_items[q].children_spec()[slots[i] as int]);
                            } else {
                                assert(items[q] == old_items[q]);
                            }
                        }
                    }
                    assert forall|i: int, j: int|
                        0 <= i < n && 0 <= j < n && i != j implies #[trigger] self.paths@[i]
                        != #[trigger] self.paths@[j] by {
                        if i == idx && j < idx {
                            assert(is_path(model, paths[j]));
                        } else if j == idx && i < idx {
                            assert(is_path(model, paths[i]));
                        }
                    }
                    assert forall|i: int| 0 <= i < n implies ((#[trigger] items[i]).parent_spec() is None <==> i == 0) by {
                        if i < idx {
                            assert(items[i].parent_spec() == old_items[i].parent_spec());
                        }
                    }
                }
                idx
            },
        }
    }

    /// The directory stored at `idx`, if a directory is stored there.
    pub fn dir_at(&self, idx: usize) -> (r: Option<&ArenaDir>)
        requires
            idx < self.len(),
        ensures
            match self.item(idx as int) {
                ArenaItem::Dir(d) => r == Some(&d),
                ArenaItem::File(_) => r is None,
            },
    {
        match &self.items[idx] {
            ArenaItem::Dir(d) => Some(d),
            ArenaItem::File(_) => None,
        }
    }

    /// The index of the root, reached from `idx` by following parent links.
    pub fn root_from(&self, idx: usize) -> (r: usize)
        requires
            self.wf(),
            idx < self.len(),
        ensures
            r == 0,
    {
        let mut cur = idx;
        loop
            invariant
                self.wf(),
                cur < self.len(),
            decreases cur,
        {
            let parent = match &self.items[cur] {
                ArenaItem::Dir(d) => d.parent,
                ArenaItem::File(f) => f.parent,
            };
            match parent {
                None => {
                    return cur;
                },
                Some(p) => {
                    assert(self.items@[cur as int].parent_spec() == Some(p));
                    cur = p;
                },
            }
        }
    }

    /// Where `cd name` leads from the directory at `cwd`: `/` to the root,
    /// `..` to the parent, another name to the first subdirectory of that name.
    pub fn cd(&self, cwd: usize, name: &str) -> (r: Result<usize, Fault>)
        requires
            self.wf(),
            cwd < self.len(),
            self.item(cwd as int) is Dir,
        ensures
            match change_dir(self.view(), self.path(cwd as int), name@) {
                Ok(p) => r matches Ok(c) && c < self.len() && self.item(c as int) is Dir
                    && self.path(c as int) == p,
                Err(f) => r == Err::<usize, Fault>(f),
            },
    {
        proof {
            reveal_strlit("/");
            reveal_strlit("..");
        }
        assert("/"@ =~= slash());
        assert(".."@ =~= dot_dot());
        if same_text(name, "/") {
            return Ok(self.root_from(cwd));
        }
        if same_text(name, "..") {
            return match self.parent_of(cwd) {
                None => Err(Fault::NoParent),
                Some(p) => Ok(p),
            };
        }
        match self.find_child_dir(cwd, name) {
            Some(c) => Ok(c),
            None => Err(Fault::NoSuchDir),
        }
    }

    /// The first subdirectory named `name` of the directory at `cwd`.
    fn find_child_dir(&self, cwd: usize, name: &str) -> (r: Option<usize>)
        requires
            self.wf(),
            cwd < self.len(),
            self.item(cwd as int) is Dir,
        ensures
            r is None <==> first_dir(self.node(cwd as int).kids(), name@) is None,
            r matches Some(c) ==> c < self.len() && self.item(c as int) is Dir && self.path(c as int)
                == self.path(cwd as int).push(
                first_dir(self.node(cwd as int).kids(), name@)->Some_0 as usize,
            ),
    {
        let d = match &self.items[cwd] {
            ArenaItem::Dir(d) => d,
            ArenaItem::File(_) => {
                return None;
            },
        };
        let ghost here = self.node(cwd as int);
        let ghost cs = here.kids();
        proof {
            lemma_first_dir(cs, name@);
            assert(self.items@[cwd as int].matches_node(here));
            assert forall|k: int| 0 <= k < cs.len() implies #[trigger] cs[k] == self.node(
                d.children@[k] as int,
            ) by {
                assert(self.items@[cwd as int].children_spec()[k] == d.children@[k]);
                lemma_at_push(self.model@, self.paths@[cwd as int], k as usize);
            }
        }
        let n = d.children.len();
        let mut k: usize = 0;
        while k < n
            invariant
                self.wf(),
                cwd < self.len(),
                self.items@[cwd as int] == ArenaItem::Dir(*d),
                n == d.children.len() == cs.len(),
                cs == self.node(cwd as int).kids(),
                forall|k: int| 0 <= k < cs.len() ==> #[trigger] cs[k] == self.node(d.children@[k] as int),
                k <= n,
                forall|j: int| 0 <= j < k ==> !(cs[j] is Dir && cs[j].name() == name@),
                first_dir(cs, name@) matches Some(f) ==> f < cs.len() && cs[f as int] is Dir
                    && cs[f as int].name() == name@
                    && forall|j: int| 0 <= j < f ==> !(cs[j] is Dir && cs[j].name() == name@),
                first_dir(cs, name@) is None ==> forall|j: int|
                    0 <= j < cs.len() ==> !(cs[j] is Dir && cs[j].name() == name@),
            decreases n - k,
        {
            let c = d.children[k];
            proof {
                assert(self.items@[cwd as int].children_spec()[k as int] == c);
                assert(cs[k as int] == self.node(c as int));
            }
            match &self.items[c] {
                ArenaItem::Dir(cd) => {
                    if same_text(cd.name.as_str(), name) {
                        proof {
                            assert(self.paths@[c as int] == self.paths@[cwd as int].push(k));
                            assert(self.items@[c as int].matches_node(self.node(c as int)));
                            assert(cs[k as int] is Dir && cs[k as int].name() == name@);
                            assert(first_dir(cs, name@) == Some(k as nat));
                        }
                        return Some(c);
                    }
                },
                ArenaItem::File(_) => {},
            }
            k = k + 1;
        }
        None
    }

    /// For a child link of a well-formed arena, the model node is the
    /// matching child of the parent's model node.
    proof fn lemma_child_node(&self, i: int, k: int)
        requires
            self.wf(),
            0 <= i < self.len(),
            0 <= k < self.item(i).children_spec().len(),
        ensures
            self.item(i).children_spec()[k] < self.len(),
            self.node(self.item(i).children_spec()[k] as int) == self.node(i).kids()[k],
            self.node(i).kids().len() == self.item(i).children_spec().len(),
            self.path(self.item(i).children_spec()[k] as int) == self.path(i).push(k as usize),
    {
        let c = self.items@[i].children_spec()[k] as int;
        assert(self.items@[i].matches_node(self.node(i)));
        assert(self.paths@[c] == self.paths@[i].push(k as usize));
        lemma_at_push(self.model@, self.paths@[i], k as usize);
    }

    /// Total size of the files at or below index `idx`, recomputed on every
    /// call.
    pub fn size(&self, idx: usize) -> (r: u64)
        requires
            self.wf(),
            idx < self.len(),
            size_of(self.node(idx as int)) <= u64::MAX,
        ensures
            r == size_of(self.node(idx as int)),
        decreases self.len() - idx,
    {
        match &self.items[idx] {
            ArenaItem::File(f) => {
                assert(self.items@[idx as int].matches_node(self.node(idx as int)));
                f.size as u64
            },
            ArenaItem::Dir(d) => {
                let ghost cs = self.node(idx as int).kids();
                assert(self.items@[idx as int].matches_node(self.node(idx as int)));
                let mut sum: u64 = 0;
                let mut k: usize = 0;
                assert(cs.take(0) =~= Seq::<Entry>::empty());
                while k < d.children.len()
                    invariant
                        self.wf(),
                        idx < self.len(),
                        self.items@[idx as int] == ArenaItem::Dir(*d),
                        cs == self.node(idx as int).kids(),
                        self.node(idx as int) is Dir,
                        cs.len() == d.children.len(),
                        size_of(self.node(idx as int)) <= u64::MAX,
                        k <= cs.len(),
                        sum == sizes_of(cs.take(k as int)),
                    decreases d.children.len() - k,
                {
                    proof {
                        lemma_sizes_prefix(cs, k as int);
                        self.lemma_child_node(idx as int, k as int);
                    }
                    let c = d.children[k];
                    assert(self.items@[idx as int].children_spec()[k as int] == c);
                    assert(idx < c) by {
                        assert(self.items@[idx as int].children_spec()[k as int] as int > idx);
                    }
                    let z = self.size(c);
                    sum = sum + z;
                    k = k + 1;
                }
                assert(cs.take(k as int) =~= cs);
                sum
            },
        }
    }

    /// Pushes the children of the directory at `t` onto `stack` in reverse
    /// order, so that they come off it in declaration order.
    fn push_children(&self, t: usize, stack: &mut Vec<usize>)
        requires
            self.wf(),
            t < self.len(),
            self.item(t as int) is Dir,
            forall|i: int| 0 <= i < old(stack).len() ==> old(stack)[i] < self.len(),
        ensures
            forall|i: int| 0 <= i < final(stack).len() ==> final(stack)[i] < self.len(),
            pending(nodes_of(self, final(stack)@)) == preorder_all(self.node(t as int).kids())
                + pending(nodes_of(self, old(stack)@)),
            pending_paths(self.view(), paths_of(self, final(stack)@)) == paths_from(
                self.node(t as int).kids(),
                self.path(t as int),
                0,
            ) + pending_paths(self.view(), paths_of(self, old(stack)@)),
    {
        let ghost rest = nodes_of(self, stack@);
        let ghost restp = paths_of(self, stack@);
        assert(self.items@[t as int].matches_node(self.node(t as int)));
        let d = match &self.items[t] {
            ArenaItem::Dir(d) => d,
            ArenaItem::File(_) => {
                return;
            },
        };
        let ghost kids = self.node(t as int).kids();
        let n = d.children.len();
        let mut j: usize = n;
        assert(kids.subrange(n as int, n as int) =~= Seq::<Entry>::empty());
        assert(paths_from(kids, self.path(t as int), n as int) =~= Seq::<Seq<usize>>::empty());
        assert(paths_from(kids, self.path(t as int), n as int) + restp =~= restp);
        while j > 0
            invariant
                self.wf(),
                t < self.len(),
                self.items@[t as int] == ArenaItem::Dir(*d),
                j <= n == d.children.len() == kids.len(),
                kids == self.node(t as int).kids(),
                forall|i: int| 0 <= i < stack.len() ==> stack[i] < self.len(),
                pending(nodes_of(self, stack@)) == preorder_all(kids.subrange(j as int, n as int))
                    + pending(rest),
                pending_paths(self.view(), paths_of(self, stack@)) == paths_from(
                    kids,
                    self.path(t as int),
                    j as int,
                ) + pending_paths(self.view(), restp),
            decreases j,
        {
            let ghost before = nodes_of(self, stack@);
            let ghost beforep = paths_of(self, stack@);
            proof {
                self.lemma_child_node(t as int, j - 1);
            }
            let c = d.children[j - 1];
            assert(self.items@[t as int].children_spec()[j - 1] == c);
            stack.push(c);
            proof {
                assert(nodes_of(self, stack@) =~= before.push(kids[j - 1]));
                assert(nodes_of(self, stack@).drop_last() =~= before);
                assert(kids.subrange(j - 1, n as int) =~= seq![kids[j - 1]] + kids.subrange(
                    j as int,
                    n as int,
                ));
                lemma_preorder_all_cons(kids[j - 1], kids.subrange(j as int, n as int));
                assert(paths_of(self, stack@) =~= beforep.push(self.path(t as int).push((j - 1) as usize)));
                assert(paths_of(self, stack@).drop_last() =~= beforep);
                assert(at(self.view(), self.path(c as int)) == kids[j - 1]);
                assert(paths_from(kids, self.path(t as int), j - 1) == preorder_paths(
                    kids[j - 1],
                    self.path(t as int).push((j - 1) as usize),
                ) + paths_from(kids, self.path(t as int), j as int));
            }
            j = j - 1;
        }
        assert(kids.subrange(0, n as int) =~= kids);
    }

    /// Indices of all nodes in pre-order, found with an explicit work list
    /// seeded with the root.
    pub fn iter_indices(&self) -> (r: Vec<usize>)
        requires
            self.wf(),
            self.len() > 0,
        ensures
            forall|i: int| 0 <= i < r.len() ==> r[i] < self.len(),
            nodes_of(self, r@) == preorder(self.view()),
            paths_of(self, r@) == preorder_paths(self.view(), Seq::empty()),
    {
        let mut out: Vec<usize> = Vec::new();
        let mut stack: Vec<usize> = Vec::new();
        stack.push(0);
        proof {
            assert(self.node(0) == self.view());
            assert(nodes_of(self, stack@) =~= seq![self.view()]);
            assert(seq![self.view()].drop_last() =~= Seq::<Entry>::empty());
            assert(seq![self.view()].last() == self.view());
            assert(pending(Seq::<Entry>::empty()) =~= Seq::<Entry>::empty());
            assert(pending(seq![self.view()]) =~= preorder(self.view()));
            assert(nodes_of(self, out@) =~= Seq::<Entry>::empty());
            assert(self.path(0) == Seq::<usize>::empty());
            assert(paths_of(self, stack@) =~= seq![Seq::<usize>::empty()]);
            assert(seq![Seq::<usize>::empty()].drop_last() =~= Seq::<Seq<usize>>::empty());
            assert(pending_paths(self.view(), Seq::<Seq<usize>>::empty()) =~= Seq::<Seq<usize>>::empty());
            assert(at(self.view(), Seq::empty()) == self.view());
            assert(pending_paths(self.view(), seq![Seq::<usize>::empty()]) =~= preorder_paths(
                self.view(),
                Seq::empty(),
            ));
            assert(paths_of(self, out@) =~= Seq::<Seq<usize>>::empty());
        }
        while stack.len() > 0
            invariant
                self.wf(),
                forall|i: int| 0 <= i < out.len() ==> out[i] < self.len(),
                forall|i: int| 0 <= i < stack.len() ==> stack[i] < self.len(),
                nodes_of(self, out@) + pending(nodes_of(self, stack@)) == preorder(self.view()),
                paths_of(self, out@) + pending_paths(self.view(), paths_of(self, stack@))
                    == preorder_paths(self.view(), Seq::empty()),
            decreases preorder(self.view()).len() - out.len(),
        {
            let ghost st = nodes_of(self, stack@);
            let ghost stp = paths_of(self, stack@);
            let t = stack.pop().unwrap();
            let ghost rest = nodes_of(self, stack@);
            proof {
                assert(st.drop_last() =~= rest);
                assert(st.last() == self.node(t as int));
                assert(nodes_of(self, out@.push(t)) =~= nodes_of(self, out@).push(self.node(t as int)));
                assert(stp.drop_last() =~= paths_of(self, stack@));
                assert(stp.last() == self.path(t as int));
                assert(paths_of(self, out@.push(t)) =~= paths_of(self, out@).push(self.path(t as int)));
                assert(at(self.view(), self.path(t as int)) == self.node(t as int));
            }
            out.push(t);
            assert(self.items@[t as int].matches_node(self.node(t as int)));
            match &self.items[t] {
                ArenaItem::File(_) => {
                    assert(nodes_of(self, out@) + pending(nodes_of(self, stack@)) =~= preorder(
                        self.view(),
                    ));
                    assert(paths_of(self, out@) + pending_paths(self.view(), paths_of(self, stack@))
                        =~= preorder_paths(self.view(), Seq::empty()));
                },
                ArenaItem::Dir(_) => {
                    self.push_children(t, &mut stack);
                    assert(nodes_of(self, out@) + pending(nodes_of(self, stack@)) =~= preorder(
                        self.view(),
                    ));
                    assert(paths_of(self, out@) + pending_paths(self.view(), paths_of(self, stack@))
                        =~= preorder_paths(self.view(), Seq::empty()));
                },
            }
        }
        assert(nodes_of(self, stack@) =~= Seq::<Entry>::empty());
        assert(nodes_of(self, out@) =~= preorder(self.view()));
        assert(paths_of(self, stack@) =~= Seq::<Seq<usize>>::empty());
        assert(paths_of(self, out@) =~= preorder_paths(self.view(), Seq::empty()));
        out
    }

    /// The parent of the node at `idx`; the root has none.
    pub fn parent_of(&self, idx: usize) -> (r: Option<usize>)
        requires
            self.wf(),
            idx < self.len(),
        ensures
            r is None <==> idx == 0,
            r matches Some(p) ==> p < idx && self.item(p as int) is Dir && self.path(p as int)
                == self.path(idx as int).drop_last(),
    {
        let r = match &self.items[idx] {
            ArenaItem::Dir(d) => d.parent,
            ArenaItem::File(f) => f.parent,
        };
        proof {
            if idx > 0 {
                let p = r->Some_0;
                let k = self.slots@[idx as int];
                assert(self.items@[p as int].children_spec()[k as int] == idx);
                assert(self.paths@[idx as int] == self.paths@[p as int].push(k));
                assert(self.paths@[p as int] =~= self.paths@[idx as int].drop_last());
            }
        }
        r
    }

    /// The children of the directory at `idx`, in order; a file has none.
    pub fn children_of(&self, idx: usize) -> (r: &[usize])
        requires
            self.wf(),
            idx < self.len(),
        ensures
            r@ == self.item(idx as int).children_spec(),
            forall|k: int|
                0 <= k < r@.len() ==> idx < r@[k] < self.len() && self.path(#[trigger] r@[k] as int)
                    == self.path(idx as int).push(k as usize),
    {
        let r: &[usize] = match &self.items[idx] {
            ArenaItem::Dir(d) => d.children.as_slice(),
            ArenaItem::File(_) => &[],
        };
        assert forall|k: int| 0 <= k < r@.len() implies idx < r@[k] < self.len() && self.path(
            #[trigger] r@[k] as int,
        ) == self.path(idx as int).push(k as usize) by {
            assert(self.items@[idx as int].children_spec()[k] == r@[k]);
        }
        r
    }

    pub fn at(&self, idx: usize) -> (r: &ArenaItem)
        requires
            idx < self.len(),
        ensures
            *r == self.item(idx as int),
    {
        &self.items[idx]
    }
}

/// In a well-formed arena every node but the root has a parent that lists it
/// exactly once among its children, and the root has no parent.
pub proof fn lemma_listed_once(a: &Arena, i: int)
    requires
        a.wf(),
        0 <= i < a.len(),
    ensures
        i == 0 <==> a.item(i).parent_spec() is None,
        i > 0 ==> {
            let p = a.item(i).parent_spec()->Some_0 as int;
            &&& 0 <= p < i
            &&& a.item(p) is Dir
            &&& exists|k: int| 0 <= k < a.item(p).children_spec().len() && a.item(p).children_spec()[k] == i
            &&& forall|k1: int, k2: int|
                0 <= k1 < a.item(p).children_spec().len() && 0 <= k2 < a.item(p).children_spec().len()
                    && a.item(p).children_spec()[k1] == i && a.item(p).children_spec()[k2] == i
                    ==> k1 == k2
        },
{
    if i > 0 {
        let p = a.items@[i].parent_spec()->Some_0 as int;
        let cs = a.items@[p].children_spec();
        assert(cs[a.slots@[i] as int] == i);
        assert forall|k1: int, k2: int|
            0 <= k1 < cs.len() && 0 <= k2 < cs.len() && cs[k1] == i && cs[k2] == i implies k1 == k2 by {
            assert(a.paths@[i] == a.paths@[p].push(k1 as usize));
            assert(a.paths@[i] == a.paths@[p].push(k2 as usize));
            assert(a.paths@[p].push(k1 as usize).last() == k1 as usize);
            assert(a.paths@[p].push(k2 as usize).last() == k2 as usize);
        }
    }
}

/// What a well-formed arena guarantees: the root is at index 0, each index
/// holds what the model node at its path shows, distinct indices have
/// distinct paths, and child links lead one step down the model, to items
/// that name their parent (so no item is listed by two parents).
pub proof fn lemma_arena_wf(a: &Arena)
    requires
        a.wf(),
    ensures
        a.len() > 0 ==> a.path(0) == Seq::<usize>::empty() && a.item(0) is Dir && a.view() is Dir
            && a.node(0) == a.view(),
        forall|i: int|
            0 <= i < a.len() ==> #[trigger] a.node(i) == at(a.view(), a.path(i)) && is_path(
                a.view(),
                a.path(i),
            ) && a.item(i).matches_node(a.node(i)),
        forall|i: int, j: int|
            0 <= i < a.len() && 0 <= j < a.len() && i != j ==> #[trigger] a.path(i) != #[trigger] a.path(j),
        forall|i: int, k: int|
            0 <= i < a.len() && 0 <= k < a.item(i).children_spec().len() ==> {
                let c = #[trigger] a.item(i).children_spec()[k] as int;
                &&& i < c < a.len()
                &&& a.path(c) == a.path(i).push(k as usize)
                &&& a.item(c).parent_spec() == Some(i as usize)
            },
{
    if a.len() > 0 {
        assert(at(a.model@, Seq::empty()) == a.model@);
    }
    assert forall|i: int| 0 <= i < a.len() implies #[trigger] a.node(i) == at(a.view(), a.path(i)) && is_path(
        a.view(),
        a.path(i),
    ) && a.item(i).matches_node(a.node(i)) by {
        assert(a.items@[i].matches_node(at(a.model@, a.paths@[i])));
    }
    assert forall|i: int, k: int| 0 <= i < a.len() && 0 <= k < a.item(i).children_spec().len() implies {
        let c = #[trigger] a.item(i).children_spec()[k] as int;
        &&& i < c < a.len()
        &&& a.path(c) == a.path(i).push(k as usize)
        &&& a.item(c).parent_spec() == Some(i as usize)
    } by {
        assert(a.items@[i].children_spec()[k] == a.item(i).children_spec()[k]);
    }
}

/// Index `i` is reached from the root by following child links: its parent
/// lists it and is itself reached the same way.
pub open spec fn reached(a: &Arena, i: int) -> bool
    decreases i,
{
    if i <= 0 {
        i == 0
    } else {
        match a.item(i).parent_spec() {
            None => false,
            Some(p) => p < i && a.item(p as int).children_spec().contains(i as usize) && reached(a, p as int),
        }
    }
}

/// Every index of a well-formed arena is reached from the root.
pub proof fn lemma_reached(a: &Arena, i: int)
    requires
        a.wf(),
        0 <= i < a.len(),
    ensures
        reached(a, i),
    decreases i,
{
    if i > 0 {
        let p = a.items@[i].parent_spec()->Some_0 as int;
        let k = a.slots@[i] as int;
        assert(a.items@[p].children_spec()[k] == i);
        lemma_reached(a, p);
    }
}

/// Indices are determined by their paths: two index sequences of a
/// well-formed arena with the same paths are equal. Two calls of
/// `iter_indices` on one arena thus give the same vector.
pub proof fn lemma_indices_fixed(a: &Arena, r1: Seq<usize>, r2: Seq<usize>)
    requires
        a.wf(),
        forall|i: int| 0 <= i < r1.len() ==> r1[i] < a.len(),
        forall|i: int| 0 <= i < r2.len() ==> r2[i] < a.len(),
        paths_of(a, r1) == paths_of(a, r2),
    ensures
        r1 == r2,
{
    assert(r1.len() == paths_of(a, r1).len());
    assert forall|k: int| 0 <= k < r1.len() implies r1[k] == r2[k] by {
        assert(paths_of(a, r1)[k] == a.path(r1[k] as int));
        assert(paths_of(a, r2)[k] == a.path(r2[k] as int));
    }
    assert(r1 =~= r2);
}

/// The size of the root of an arena is the sum of the sizes of every file
/// node in its pre-order listing.
pub proof fn lemma_arena_root_size(a: &Arena)
    requires
        a.wf(),
        a.len() > 0,
    ensures
        size_of(a.node(0)) == size_of(a.view()),
        size_of(a.view()) == file_total(preorder(a.view())),
{
    lemma_arena_wf(a);
    lemma_size_is_file_total(a.view());
}

/// The paths of the nodes at the indices `s`.
pub open spec fn paths_of(a: &Arena, s: Seq<usize>) -> Seq<Seq<usize>> {
    s.map_values(|i: usize| a.path(i as int))
}

/// What a work list of paths in the tree `r` still yields: the pre-order
/// paths below its last entry first, then the rest.
pub open spec fn pending_paths(r: Entry, st: Seq<Seq<usize>>) -> Seq<Seq<usize>>
    decreases st.len(),
{
    if st.len() == 0 {
        Seq::empty()
    } else {
        preorder_paths(at(r, st.last()), st.last()) + pending_paths(r, st.drop_last())
    }
}

/// The model nodes at the indices `s`.
pub open spec fn nodes_of(a: &Arena, s: Seq<usize>) -> Seq<Entry> {
    s.map_values(|i: usize| a.node(i as int))
}

/// The builder's model state for an arena and a current directory.
pub open spec fn session_of(a: &Arena, cwd: Option<usize>) -> Session {
    match cwd {
        None => Session { root: None, cwd: Seq::empty() },
        Some(c) => Session { root: Some(a.view()), cwd: a.path(c as int) },
    }
}

/// Builds the arena that the transcript `input` describes.
pub fn parse_input_arena(input: &str) -> (r: Result<Arena, BuildError>)
    ensures
        match transcript_tree(input@) {
            Ok(t) => r matches Ok(a) && a.wf() && a.len() > 0 && a.view() == t && a.path(0)
                == Seq::<usize>::empty() && size_of(a.view()) <= u64::MAX,
            Err(f) => r matches Err(e) && e@ == f,
        },
{
    let cs = chars_of(input);
    let bounds = line_bounds(&cs);
    let ghost ls = lines(input@);
    let mut arena = Arena::new();
    let mut cwd: Option<usize> = None;
    let mut total: u64 = 0;
    let mut i: usize = 0;
    assert(ls.take(0) =~= Seq::<Seq<char>>::empty());
    while i < bounds.len()
        invariant
            cs@ == input@,
            ls == lines(input@),
            bounds.len() == ls.len(),
            forall|k: int|
                0 <= k < bounds.len() ==> (#[trigger] bounds[k]).0 <= bounds[k].1 <= cs.len()
                    && cs@.subrange(bounds[k].0 as int, bounds[k].1 as int) == ls[k],
            i <= bounds.len(),
            arena.wf(),
            run(ls.take(i as int)) == Ok::<Session, Failure>(session_of(&arena, cwd)),
            match cwd {
                Some(c) => c < arena.len() && arena.item(c as int) is Dir && total == size_of(
                    arena.view(),
                ),
                None => arena.len() == 0,
            },
        decreases bounds.len() - i,
    {
        let (a, b) = bounds[i];
        proof {
            lemma_run_step(ls, i as int);
        }
        let cmd = match parse_line(input, &cs, a, b) {
            Some(c) => c,
            None => {
                proof {
                    lemma_run_failure_stays(ls, i + 1);
                }
                return Err(BuildError::Parse(input.substring_char(a, b).to_owned()));
            },
        };
        match cwd {
            None => {
                match cmd {
                    Command::RootChange => {
                        let idx = arena.add_item(ArenaItem::Dir(ArenaDir::new("/")), None);
                        proof {
                            reveal_strlit("/");
                            assert("/"@ =~= slash());
                            assert(arena.view() =~= root_dir());
                        }
                        cwd = Some(idx);
                        total = 0;
                    },
                    _ => {
                        proof {
                            lemma_run_failure_stays(ls, i + 1);
                        }
                        return Err(BuildError::Nav(Fault::Uninitialized));
                    },
                }
            },
            Some(c) => {
                proof {
                    assert(is_dir_path(arena.view(), arena.path(c as int)));
                }
                match cmd {
                    Command::RootChange => {
                        cwd = Some(arena.root_from(c));
                    },
                    Command::ChangeDir(n) => {
                        match arena.cd(c, n.as_str()) {
                            Ok(next) => {
                                cwd = Some(next);
                            },
                            Err(f) => {
                                proof {
                                    lemma_run_failure_stays(ls, i + 1);
                                }
                                return Err(BuildError::Nav(f));
                            },
                        }
                    },
                    Command::List => {},
                    Command::DirEntry(n) => {
                        let item = ArenaItem::Dir(ArenaDir::new(n.as_str()));
                        proof {
                            lemma_insert_target(arena.view(), arena.path(c as int), item.leaf());
                        }
                        arena.add_item(item, Some(c));
                    },
                    Command::FileEntry(n, z) => {
                        if total > u64::MAX - z as u64 {
                            proof {
                                lemma_run_failure_stays(ls, i + 1);
                            }
                            return Err(BuildError::Nav(Fault::TooLarge));
                        }
                        let item = ArenaItem::File(ArenaFile::new(n.as_str(), z));
                        proof {
                            lemma_insert_target(arena.view(), arena.path(c as int), item.leaf());
                        }
                        arena.add_item(item, Some(c));
                        total = total + z as u64;
                    },
                }
            },
        }
        i = i + 1;
    }
    assert(ls.take(bounds.len() as int) =~= ls);
    match cwd {
        Some(_) => Ok(arena),
        None => Err(BuildError::Nav(Fault::Uninitialized)),
    }
}

impl Arena {
    /// The items of all nodes in pre-order.
    pub fn iter(&self) -> (r: Vec<&ArenaItem>)
        requires
            self.wf(),
            self.len() > 0,
        ensures
            exists|idx: Seq<usize>|
                paths_of(self, idx) == preorder_paths(self.view(), Seq::empty()) && nodes_of(self, idx)
                    == preorder(self.view()) && idx.len() == r.len() && forall|i: int|
                    0 <= i < idx.len() ==> idx[i] < self.len() && #[trigger] r[i] == self.item(
                        idx[i] as int,
                    ),
            r.len() == preorder(self.view()).len(),
            forall|i: int| 0 <= i < r.len() ==> (#[trigger] r[i]).name_spec() == preorder(self.view())[i].name(),
    {
        let idx = self.iter_indices();
        proof {
            lemma_arena_wf(self);
            assert(nodes_of(self, idx@).len() == idx.len());
        }
        let mut out: Vec<&ArenaItem> = Vec::new();
        let mut i: usize = 0;
        while i < idx.len()
            invariant
                self.wf(),
                forall|j: int| 0 <= j < idx.len() ==> idx[j] < self.len(),
                i <= idx.len(),
                out.len() == i,
                forall|j: int| 0 <= j < i ==> #[trigger] out[j] == self.item(idx[j] as int),
            decreases idx.len() - i,
        {
            out.push(self.at(idx[i]));
            i = i + 1;
        }
        assert forall|i: int| 0 <= i < out.len() implies (#[trigger] out[i]).name_spec() == preorder(
            self.view(),
        )[i].name() by {
            assert(nodes_of(self, idx@)[i] == self.node(idx[i] as int));
            assert(self.item(idx[i] as int).matches_node(self.node(idx[i] as int)));
        }
        out
    }

    /// The sizes of the directories among the nodes at `indices`, in order.
    pub fn dir_sizes_at(&self, indices: &Vec<usize>) -> (r: Vec<u64>)
        requires
            self.wf(),
            forall|i: int|
                0 <= i < indices.len() ==> indices[i] < self.len() && size_of(
                    #[trigger] self.node(indices[i] as int),
                ) <= u64::MAX,
        ensures
            nats(r@) == dir_sizes(nodes_of(self, indices@)),
    {
        let ghost vs = nodes_of(self, indices@);
        let mut out: Vec<u64> = Vec::new();
        let mut i: usize = 0;
        assert(vs.take(0) =~= Seq::<Entry>::empty());
        assert(nats(out@) =~= Seq::<nat>::empty());
        while i < indices.len()
            invariant
                self.wf(),
                vs == nodes_of(self, indices@),
                forall|i: int|
                    0 <= i < indices.len() ==> indices[i] < self.len() && size_of(
                        #[trigger] self.node(indices[i] as int),
                    ) <= u64::MAX,
                i <= indices.len(),
                nats(out@) == dir_sizes(vs.take(i as int)),
            decreases indices.len() - i,
        {
            assert(vs.take(i + 1).drop_last() =~= vs.take(i as int));
            let idx = indices[i];
            assert(vs.take(i + 1).last() == self.node(idx as int));
            assert(self.items@[idx as int].matches_node(self.node(idx as int)));
            match self.at(idx) {
                ArenaItem::Dir(_) => {
                    let z = self.size(idx);
                    let ghost before = out@;
                    out.push(z);
                    assert(nats(out@) =~= nats(before).push(z as nat));
                },
                ArenaItem::File(_) => {},
            }
            i = i + 1;
        }
        assert(vs.take(i as int) =~= vs);
        out
    }

    /// The sizes of all directories, in pre-order.
    fn all_dir_sizes(&self) -> (r: Vec<u64>)
        requires
            self.wf(),
            self.len() > 0,
            size_of(self.view()) <= u64::MAX,
        ensures
            nats(r@) == dir_sizes(preorder(self.view())),
    {
        let idx = self.iter_indices();
        proof {
            lemma_preorder_sizes_bounded(self.view());
            assert forall|i: int| 0 <= i < idx.len() implies idx[i] < self.len() && size_of(
                #[trigger] self.node(idx[i] as int),
            ) <= u64::MAX by {
                assert(nodes_of(self, idx@)[i] == self.node(idx[i] as int));
            }
        }
        self.dir_sizes_at(&idx)
    }
}

/// Sum of the sizes of the directories of at most `size_limit`.
pub fn part1_arena(root: &Arena, size_limit: u64) -> (r: u128)
    requires
        root.wf(),
        root.len() > 0,
        size_of(root.view()) <= u64::MAX,
    ensures
        r == sum_at_most(dir_sizes(preorder(root.view())), size_limit as nat),
{
    let sizes = root.all_dir_sizes();
    sum_of_directories_at_most(&sizes, size_limit)
}

/// Size of the smallest directory whose removal leaves `FREE_MIN` free on a
/// device of `FS_SIZE`.
pub fn part2_arena(arena: &Arena) -> (r: Result<u64, QueryError>)
    requires
        arena.wf(),
        arena.len() > 0,
        size_of(arena.view()) <= u64::MAX,
    ensures
        match smallest_at_least(dir_sizes(preorder(arena.view())), space_needed(size_of(arena.view()))) {
            Some(v) => r == Ok::<u64, QueryError>(v as u64),
            None => r == Err::<u64, QueryError>(QueryError::NotFound),
        },
{
    let sizes = arena.all_dir_sizes();
    proof {
        assert(arena.node(0) == arena.view());
    }
    let needed = needed_for(arena.size(0));
    proof {
        if space_needed(size_of(arena.view())) <= 0 {
            lemma_smallest_nonpositive(nats(sizes@), space_needed(size_of(arena.view())));
        }
    }
    smallest_directory_at_least(&sizes, needed)
}

} // verus!
