use vstd::prelude::*;

verus! {

/// Mathematical picture of a filesystem node.
pub enum Entry {
    Dir { name: Seq<char>, children: Seq<Entry> },
    File { name: Seq<char>, size: nat },
}

impl Entry {
    pub open spec fn name(self) -> Seq<char> {
        match self {
            Entry::Dir { name, .. } => name,
            Entry::File { name, .. } => name,
        }
    }

    pub open spec fn kids(self) -> Seq<Entry> {
        match self {
            Entry::Dir { children, .. } => children,
            Entry::File { .. } => Seq::empty(),
        }
    }
}

/// Sum of the sizes of every file at or below `e`.
pub open spec fn size_of(e: Entry) -> nat
    decreases e,
{
    match e {
        Entry::File { size, .. } => size,
        Entry::Dir { children, .. } => sizes_of(children),
    }
}

/// Sum of `size_of` over a sequence of siblings.
pub open spec fn sizes_of(es: Seq<Entry>) -> nat
    decreases es,
{
    if es.len() == 0 {
        0
    } else {
        sizes_of(es.drop_last()) + size_of(es.last())
    }
}

/// Sums over prefixes of a sequence of siblings grow one sibling at a time
/// and never pass the whole sum.
pub proof fn lemma_sizes_prefix(cs: Seq<Entry>, k: int)
    requires
        0 <= k < cs.len(),
    ensures
        sizes_of(cs.take(k + 1)) == sizes_of(cs.take(k)) + size_of(cs[k]),
        sizes_of(cs.take(k + 1)) <= sizes_of(cs),
    decreases cs.len() - k,
{
    assert(cs.take(k + 1).drop_last() =~= cs.take(k));
    if k + 1 < cs.len() {
        lemma_sizes_prefix(cs, k + 1);
    } else {
        assert(cs.take(k + 1) =~= cs);
    }
}

/// Pre-order listing: a node, then the listings of its children in order.
pub open spec fn preorder(e: Entry) -> Seq<Entry>
    decreases e,
{
    match e {
        Entry::File { .. } => seq![e],
        Entry::Dir { children, .. } => seq![e] + preorder_all(children),
    }
}

pub open spec fn preorder_all(es: Seq<Entry>) -> Seq<Entry>
    decreases es,
{
    if es.len() == 0 {
        Seq::empty()
    } else {
        preorder_all(es.drop_last()) + preorder(es.last())
    }
}

pub proof fn lemma_preorder_all_cons(x: Entry, s: Seq<Entry>)
    ensures
        preorder_all(seq![x] + s) == preorder(x) + preorder_all(s),
    decreases s.len(),
{
    if s.len() == 0 {
        assert((seq![x] + s).drop_last() =~= Seq::<Entry>::empty());
        assert((seq![x] + s).last() == x);
        assert(preorder_all(Seq::<Entry>::empty()) =~= Seq::<Entry>::empty());
        assert(preorder_all(seq![x] + s) =~= preorder(x) + preorder_all(s));
    } else {
        lemma_preorder_all_cons(x, s.drop_last());
        assert((seq![x] + s).drop_last() =~= seq![x] + s.drop_last());
        assert(preorder_all(seq![x] + s) =~= preorder(x) + preorder_all(s));
    }
}

/// No node of a listing is larger than the node it starts from.
pub proof fn lemma_preorder_sizes_bounded(e: Entry)
    ensures
        forall|i: int| 0 <= i < preorder(e).len() ==> size_of(#[trigger] preorder(e)[i]) <= size_of(e),
    decreases e,
{
    match e {
        Entry::File { .. } => {},
        Entry::Dir { children, .. } => {
            lemma_preorder_all_sizes_bounded(children);
            assert forall|i: int| 0 <= i < preorder(e).len() implies size_of(#[trigger] preorder(e)[i]) <= size_of(e) by {
                if i > 0 {
                    assert(preorder(e)[i] == preorder_all(children)[i - 1]);
                }
            }
        },
    }
}

pub proof fn lemma_preorder_all_sizes_bounded(es: Seq<Entry>)
    ensures
        forall|i: int|
            0 <= i < preorder_all(es).len() ==> size_of(#[trigger] preorder_all(es)[i]) <= sizes_of(es),
    decreases es,
{
    if es.len() > 0 {
        lemma_preorder_all_sizes_bounded(es.drop_last());
        lemma_preorder_sizes_bounded(es.last());
        let a = preorder_all(es.drop_last());
        let b = preorder(es.last());
        assert forall|i: int| 0 <= i < preorder_all(es).len() implies size_of(#[trigger] preorder_all(es)[i]) <= sizes_of(es) by {
            if i < a.len() {
                assert(preorder_all(es)[i] == a[i]);
            } else {
                assert(preorder_all(es)[i] == b[i - a.len()]);
            }
        }
    }
}

/// Paths of the nodes at or below `e` in pre-order, `e` being at path `p`.
pub open spec fn preorder_paths(e: Entry, p: Seq<usize>) -> Seq<Seq<usize>>
    decreases e, 0int,
{
    match e {
        Entry::File { .. } => seq![p],
        Entry::Dir { children, .. } => seq![p] + paths_from(children, p, 0),
    }
}

/// Paths, in pre-order, of the subtrees `cs[j..]` of the directory at `p`.
pub open spec fn paths_from(cs: Seq<Entry>, p: Seq<usize>, j: int) -> Seq<Seq<usize>>
    decreases cs, cs.len() - j,
{
    if j < 0 || j >= cs.len() {
        Seq::empty()
    } else {
        preorder_paths(cs[j], p.push(j as usize)) + paths_from(cs, p, j + 1)
    }
}

/// What a work list of pending nodes still yields: the listing of its last
/// node first, then the rest.
pub open spec fn pending(st: Seq<Entry>) -> Seq<Entry>
    decreases st.len(),
{
    if st.len() == 0 {
        Seq::empty()
    } else {
        preorder(st.last()) + pending(st.drop_last())
    }
}

/// Each node below `e` with its absolute path (the names from the top down,
/// starting under `prefix`) and its size, in pre-order.
pub open spec fn path_sizes(e: Entry, prefix: Seq<Seq<char>>) -> Seq<(Seq<Seq<char>>, nat)>
    decreases e,
{
    match e {
        Entry::File { name, .. } => seq![(prefix.push(name), size_of(e))],
        Entry::Dir { name, children } => seq![(prefix.push(name), size_of(e))] + path_sizes_all(
            children,
            prefix.push(name),
        ),
    }
}

pub open spec fn path_sizes_all(es: Seq<Entry>, prefix: Seq<Seq<char>>) -> Seq<(Seq<Seq<char>>, nat)>
    decreases es,
{
    if es.len() == 0 {
        Seq::empty()
    } else {
        path_sizes_all(es.drop_last(), prefix) + path_sizes(es.last(), prefix)
    }
}

/// Sum of the sizes of the file nodes of a flat listing (directories count zero).
pub open spec fn file_total(es: Seq<Entry>) -> nat
    decreases es.len(),
{
    if es.len() == 0 {
        0
    } else {
        file_total(es.drop_last()) + match es.last() {
            Entry::File { size, .. } => size,
            Entry::Dir { .. } => 0,
        }
    }
}

pub proof fn lemma_file_total_concat(a: Seq<Entry>, b: Seq<Entry>)
    ensures
        file_total(a + b) == file_total(a) + file_total(b),
    decreases b.len(),
{
    if b.len() == 0 {
        assert(a + b =~= a);
    } else {
        lemma_file_total_concat(a, b.drop_last());
        assert((a + b).drop_last() =~= a + b.drop_last());
    }
}

/// The size of a node is the sum of the sizes of every file node in its
/// pre-order listing.
pub proof fn lemma_size_is_file_total(e: Entry)
    ensures
        size_of(e) == file_total(preorder(e)),
    decreases e,
{
    match e {
        Entry::File { size, .. } => {
            assert(seq![e].drop_last() =~= Seq::<Entry>::empty());
            assert(file_total(seq![e].drop_last()) == 0);
            assert(seq![e].last() == e);
            assert(preorder(e) == seq![e]);
        },
        Entry::Dir { children, .. } => {
            lemma_sizes_is_file_total(children);
            lemma_file_total_concat(seq![e], preorder_all(children));
            assert(seq![e].drop_last() =~= Seq::<Entry>::empty());
            assert(file_total(seq![e].drop_last()) == 0);
            assert(seq![e].last() == e);
            assert(file_total(seq![e]) == 0);
        },
    }
}

pub proof fn lemma_sizes_is_file_total(es: Seq<Entry>)
    ensures
        sizes_of(es) == file_total(preorder_all(es)),
    decreases es,
{
    if es.len() > 0 {
        lemma_sizes_is_file_total(es.drop_last());
        lemma_size_is_file_total(es.last());
        lemma_file_total_concat(preorder_all(es.drop_last()), preorder(es.last()));
    }
}

/// The node reached from `e` by following child positions `p`.
pub open spec fn at(e: Entry, p: Seq<usize>) -> Entry
    decreases p.len(),
{
    if p.len() == 0 {
        e
    } else {
        at(e.kids()[p[0] as int], p.drop_first())
    }
}

/// `p` leads from `e` through existing children.
pub open spec fn is_path(e: Entry, p: Seq<usize>) -> bool
    decreases p.len(),
{
    p.len() == 0 || (p[0] < e.kids().len() && is_path(e.kids()[p[0] as int], p.drop_first()))
}

/// Names of the nodes met from `e` along `p`, `e`'s own first.
pub open spec fn names_along(e: Entry, p: Seq<usize>) -> Seq<Seq<char>>
    decreases p.len(),
{
    if p.len() == 0 {
        seq![e.name()]
    } else {
        seq![e.name()] + names_along(e.kids()[p[0] as int], p.drop_first())
    }
}

/// `p` leads from `e` to a directory.
pub open spec fn is_dir_path(e: Entry, p: Seq<usize>) -> bool {
    is_path(e, p) && at(e, p) is Dir
}

/// `e` with `x` appended to the children of the directory at `p`.
pub open spec fn insert(e: Entry, p: Seq<usize>, x: Entry) -> Entry
    decreases p.len(),
{
    match e {
        Entry::File { .. } => e,
        Entry::Dir { name, children } => if p.len() == 0 {
            Entry::Dir { name, children: children.push(x) }
        } else if p[0] < children.len() {
            Entry::Dir {
                name,
                children: children.update(p[0] as int, insert(children[p[0] as int], p.drop_first(), x)),
            }
        } else {
            e
        },
    }
}

/// Position of the first directory named `n` among `cs`.
pub open spec fn first_dir(cs: Seq<Entry>, n: Seq<char>) -> Option<nat>
    decreases cs.len(),
{
    if cs.len() == 0 {
        None
    } else {
        match first_dir(cs.drop_last(), n) {
            Some(k) => Some(k),
            None => if cs.last() is Dir && cs.last().name() == n {
                Some((cs.len() - 1) as nat)
            } else {
                None
            },
        }
    }
}

pub open spec fn dot_dot() -> Seq<char> {
    seq!['.', '.']
}

pub open spec fn slash() -> Seq<char> {
    seq!['/']
}

/// A fresh root directory.
pub open spec fn root_dir() -> Entry {
    Entry::Dir { name: slash(), children: Seq::empty() }
}

/// One transcript command, as the tree builder sees it.
pub enum Step {
    RootChange,
    ChangeDir(Seq<char>),
    List,
    DirEntry(Seq<char>),
    FileEntry(Seq<char>, nat),
}

/// Why a command could not be applied to the tree being built.
#[derive(PartialEq, Eq, Structural, Clone, Copy, Debug)]
pub enum Fault {
    /// A command other than `cd /` came before the root existed.
    Uninitialized,
    /// `cd ..` at the root.
    NoParent,
    /// `cd name` where the current directory has no such subdirectory.
    NoSuchDir,
    /// The total of all file sizes would not fit in 64 bits.
    TooLarge,
}

/// State of the tree builder: the tree so far, and the path of the current
/// directory. `root` is `None` before the first `cd /`.
pub struct Session {
    pub root: Option<Entry>,
    pub cwd: Seq<usize>,
}

impl Session {
    pub open spec fn initial() -> Session {
        Session { root: None, cwd: Seq::empty() }
    }

    pub open spec fn wf(self) -> bool {
        match self.root {
            None => self.cwd.len() == 0,
            Some(r) => r is Dir && is_dir_path(r, self.cwd),
        }
    }
}

/// Moving the cursor of a tree `r` from `cwd` by `cd n`.
pub open spec fn change_dir(r: Entry, cwd: Seq<usize>, n: Seq<char>) -> Result<Seq<usize>, Fault> {
    if n == slash() {
        Ok(Seq::empty())
    } else if n == dot_dot() {
        if cwd.len() == 0 {
            Err(Fault::NoParent)
        } else {
            Ok(cwd.drop_last())
        }
    } else {
        match first_dir(at(r, cwd).kids(), n) {
            Some(k) => Ok(cwd.push(k as usize)),
            None => Err(Fault::NoSuchDir),
        }
    }
}

/// The effect of one command on the builder's state.
pub open spec fn apply(s: Session, c: Step) -> Result<Session, Fault> {
    match s.root {
        None => match c {
            Step::RootChange => Ok(Session { root: Some(root_dir()), cwd: Seq::empty() }),
            _ => Err(Fault::Uninitialized),
        },
        Some(r) => match c {
            Step::RootChange => Ok(Session { root: Some(r), cwd: Seq::empty() }),
            Step::ChangeDir(n) => match change_dir(r, s.cwd, n) {
                Ok(p) => Ok(Session { root: Some(r), cwd: p }),
                Err(f) => Err(f),
            },
            Step::List => Ok(s),
            Step::DirEntry(n) => Ok(
                Session {
                    root: Some(insert(r, s.cwd, Entry::Dir { name: n, children: Seq::empty() })),
                    cwd: s.cwd,
                },
            ),
            Step::FileEntry(n, z) => if size_of(r) + z > u64::MAX {
                Err(Fault::TooLarge)
            } else {
                Ok(
                    Session {
                        root: Some(insert(r, s.cwd, Entry::File { name: n, size: z })),
                        cwd: s.cwd,
                    },
                )
            },
        },
    }
}

/// `a` and `b` agree on everything a node shows locally: kind, name, number
/// of children, and, for files, size.
pub open spec fn same_shape(a: Entry, b: Entry) -> bool {
    &&& a.name() == b.name()
    &&& (a is Dir <==> b is Dir)
    &&& a.kids().len() == b.kids().len()
    &&& (a is File ==> a == b)
}

pub proof fn lemma_at_push(e: Entry, p: Seq<usize>, k: usize)
    requires
        is_path(e, p),
    ensures
        is_path(e, p.push(k)) <==> k < at(e, p).kids().len(),
        k < at(e, p).kids().len() ==> at(e, p.push(k)) == at(e, p).kids()[k as int],
    decreases p.len(),
{
    if p.len() == 0 {
        assert(p.push(k)[0] == k);
        assert(p.push(k).drop_first() =~= Seq::<usize>::empty());
        assert(at(e, p) == e);
        if k < e.kids().len() {
            assert(is_path(e.kids()[k as int], Seq::empty()));
            assert(at(e.kids()[k as int], Seq::empty()) == e.kids()[k as int]);
        }
    } else {
        lemma_at_push(e.kids()[p[0] as int], p.drop_first(), k);
        assert(p.push(k)[0] == p[0]);
        assert(p.push(k).drop_first() =~= p.drop_first().push(k));
    }
}

pub proof fn lemma_insert_target(e: Entry, p: Seq<usize>, x: Entry)
    requires
        is_dir_path(e, p),
    ensures
        is_path(insert(e, p, x), p),
        at(insert(e, p, x), p) == (Entry::Dir {
            name: at(e, p).name(),
            children: at(e, p).kids().push(x),
        }),
        size_of(insert(e, p, x)) == size_of(e) + size_of(x),
        e is Dir ==> insert(e, p, x) is Dir,
    decreases p.len(),
{
    if p.len() == 0 {
        let cs = e.kids();
        assert(cs.push(x).drop_last() =~= cs);
    } else {
        let cs = e.kids();
        let i = p[0] as int;
        lemma_insert_target(cs[i], p.drop_first(), x);
        lemma_sizes_update(cs, i, insert(cs[i], p.drop_first(), x));
    }
}

/// Replacing one sibling changes the sum of sizes by the difference.
pub proof fn lemma_sizes_update(cs: Seq<Entry>, i: int, y: Entry)
    requires
        0 <= i < cs.len(),
    ensures
        sizes_of(cs.update(i, y)) + size_of(cs[i]) == sizes_of(cs) + size_of(y),
    decreases cs.len(),
{
    let ncs = cs.update(i, y);
    if i == cs.len() - 1 {
        assert(ncs.drop_last() =~= cs.drop_last());
    } else {
        lemma_sizes_update(cs.drop_last(), i, y);
        assert(ncs.drop_last() =~= cs.drop_last().update(i, y));
    }
}

pub proof fn lemma_insert_other(e: Entry, p: Seq<usize>, x: Entry, q: Seq<usize>)
    requires
        is_dir_path(e, p),
        is_path(e, q),
        q != p,
    ensures
        is_path(insert(e, p, x), q),
        same_shape(at(insert(e, p, x), q), at(e, q)),
    decreases q.len(),
{
    let cs = e.kids();
    if q.len() == 0 {
        if p.len() == 0 {
            assert(q =~= p);
        }
    } else if p.len() == 0 {
        let ncs = cs.push(x);
        assert(ncs[q[0] as int] == cs[q[0] as int]);
    } else {
        let i = q[0] as int;
        if p[0] as int == i {
            assert(q.drop_first() != p.drop_first()) by {
                if q.drop_first() == p.drop_first() {
                    assert(q =~= seq![q[0]] + q.drop_first());
                    assert(p =~= seq![p[0]] + p.drop_first());
                }
            }
            lemma_insert_other(cs[i], p.drop_first(), x, q.drop_first());
        }
    }
}

/// No path from a file leads to a directory.
pub proof fn lemma_file_has_no_dir_path(e: Entry, p: Seq<usize>)
    requires
        e is File,
    ensures
        !is_dir_path(e, p),
{
}

/// A path to a directory continues, after its first step, from the child
/// that step enters.
pub proof fn lemma_dir_path_step(e: Entry, p: Seq<usize>)
    requires
        is_dir_path(e, p),
        p.len() > 0,
    ensures
        p[0] < e.kids().len(),
        is_dir_path(e.kids()[p[0] as int], p.drop_first()),
        at(e, p) == at(e.kids()[p[0] as int], p.drop_first()),
{
}

/// Carrying out a command keeps the builder's state well formed: the cursor
/// still names a directory of the tree.
pub proof fn lemma_apply_wf(s: Session, c: Step)
    requires
        s.wf(),
        apply(s, c) is Ok,
        s.root matches Some(r) ==> at(r, s.cwd).kids().len() <= usize::MAX,
    ensures
        apply(s, c)->Ok_0.wf(),
{
    assert(is_dir_path(root_dir(), Seq::empty()));
    match s.root {
        None => {},
        Some(r) => match c {
            Step::RootChange => {
                assert(is_dir_path(r, Seq::empty()));
            },
            Step::ChangeDir(n) => {
                assert(is_dir_path(r, Seq::empty()));
                if n != slash() && n != dot_dot() {
                    let k = first_dir(at(r, s.cwd).kids(), n)->Some_0;
                    lemma_first_dir(at(r, s.cwd).kids(), n);
                    lemma_at_push(r, s.cwd, k as usize);
                } else if n == dot_dot() {
                    lemma_prefix_is_dir_path(r, s.cwd);
                }
            },
            Step::DirEntry(n) => {
                lemma_insert_target(r, s.cwd, Entry::Dir { name: n, children: Seq::empty() });
            },
            Step::FileEntry(n, z) => {
                lemma_insert_target(r, s.cwd, Entry::File { name: n, size: z });
            },
            _ => {},
        },
    }
}

pub proof fn lemma_first_dir(cs: Seq<Entry>, n: Seq<char>)
    ensures
        first_dir(cs, n) matches Some(k) ==> k < cs.len() && cs[k as int] is Dir
            && cs[k as int].name() == n
            && forall|j: int| 0 <= j < k ==> !(cs[j] is Dir && cs[j].name() == n),
        first_dir(cs, n) is None ==> forall|j: int|
            0 <= j < cs.len() ==> !(cs[j] is Dir && cs[j].name() == n),
    decreases cs.len(),
{
    if cs.len() > 0 {
        lemma_first_dir(cs.drop_last(), n);
        assert(forall|j: int| 0 <= j < cs.len() - 1 ==> cs.drop_last()[j] == cs[j]);
    }
}

/// Dropping the last step of a path to a directory leads to a directory.
pub proof fn lemma_prefix_is_dir_path(r: Entry, p: Seq<usize>)
    requires
        r is Dir,
        is_path(r, p),
        p.len() > 0,
    ensures
        is_dir_path(r, p.drop_last()),
        at(r, p.drop_last()).kids()[p.last() as int] == at(r, p),
    decreases p.len(),
{
    let q = p.drop_last();
    lemma_path_prefix(r, p);
    lemma_at_push(r, q, p.last());
    assert(q.push(p.last()) =~= p);
}

pub proof fn lemma_path_prefix(r: Entry, p: Seq<usize>)
    requires
        is_path(r, p),
        p.len() > 0,
    ensures
        is_path(r, p.drop_last()),
    decreases p.len(),
{
    if p.len() > 1 {
        lemma_path_prefix(r.kids()[p[0] as int], p.drop_first());
        assert(p.drop_last().drop_first() =~= p.drop_first().drop_last());
    }
}

/// Entering an existing subdirectory and then `..` leads back to the
/// directory one started from.
pub proof fn lemma_enter_then_leave(s: Session, n: Seq<char>)
    requires
        s.wf(),
        s.root is Some,
        n != slash(),
        n != dot_dot(),
        first_dir(at(s.root->Some_0, s.cwd).kids(), n) is Some,
    ensures
        change_dir(s.root->Some_0, s.cwd, n) is Ok,
        change_dir(
            s.root->Some_0,
            change_dir(s.root->Some_0, s.cwd, n)->Ok_0,
            dot_dot(),
        ) == Ok::<Seq<usize>, Fault>(s.cwd),
        apply(s, Step::ChangeDir(n)) is Ok,
        apply(s, Step::ChangeDir(n))->Ok_0.cwd.len() == s.cwd.len() + 1,
        apply(apply(s, Step::ChangeDir(n))->Ok_0, Step::ChangeDir(dot_dot())) == Ok::<Session, Fault>(s),
{
    let k = first_dir(at(s.root->Some_0, s.cwd).kids(), n)->Some_0;
    assert(s.cwd.push(k as usize).drop_last() =~= s.cwd);
}

/// `cd /` leads to the root from anywhere, leaves the tree as it is, and
/// doing it again changes nothing.
pub proof fn lemma_root_change_idempotent(s: Session)
    requires
        s.wf(),
    ensures
        apply(s, Step::RootChange) is Ok,
        apply(s, Step::RootChange)->Ok_0.cwd.len() == 0,
        s.root is Some ==> apply(s, Step::RootChange)->Ok_0.root == s.root,
        apply(apply(s, Step::RootChange)->Ok_0, Step::RootChange) == apply(s, Step::RootChange),
        s.root is Some ==> apply(s, Step::ChangeDir(slash())) == apply(s, Step::RootChange),
{
}

} // verus!
