//! Cloning a tree entry by entry, where the system cannot clone it in one call.
use vstd::prelude::*;
use crate::bytes::{copy, views};
use crate::cow::{copying, copying_of, Copying};
use crate::path::{join, joined};
use crate::rules::FileKind;
use crate::tree::{holds, only_directories_hold, Node};

verus! {

/// Where the cloning of a tree stands with the entry that is next.
#[derive(Clone, Copy, Debug, PartialEq, Eq, Structural)]
pub enum CopyStage {
    /// Its kind is not known yet.
    Inspect,
    /// It is to be made.
    Make(Copying),
    /// It is a directory that has been made, and its entries are not known yet.
    List,
}

/// Where the cloning of a tree stands.
pub struct CopyPosition {
    /// The entries that are not done with, the next one last, each with whether it is a
    /// directory that has been made and listed. Paths are relative to the tree; the empty path
    /// is the tree itself.
    pub pending: Seq<(Seq<u8>, bool)>,
    pub stage: CopyStage,
}

/// What has to be done next.
pub enum CopyRequest {
    /// Say what kind of file this is, without following links.
    Inspect(Vec<u8>),
    /// Make it in the new tree.
    Make(Vec<u8>, Copying),
    /// List this directory.
    List(Vec<u8>),
    /// Nothing: the tree is cloned.
    Done,
}

/// What has to be done next.
pub enum CopyQuestion {
    Inspect(Seq<u8>),
    Make(Seq<u8>, Copying),
    List(Seq<u8>),
    Done,
}

impl View for CopyRequest {
    type V = CopyQuestion;

    open spec fn view(&self) -> CopyQuestion {
        match self {
            CopyRequest::Inspect(p) => CopyQuestion::Inspect(p@),
            CopyRequest::Make(p, c) => CopyQuestion::Make(p@, *c),
            CopyRequest::List(p) => CopyQuestion::List(p@),
            CopyRequest::Done => CopyQuestion::Done,
        }
    }
}

/// What came of it.
pub enum CopyAnswer {
    Kind(FileKind),
    Made,
    Entries(Vec<Vec<u8>>),
}

/// What came of it.
pub enum CopyTold {
    Kind(FileKind),
    Made,
    Entries(Seq<Seq<u8>>),
}

impl View for CopyAnswer {
    type V = CopyTold;

    open spec fn view(&self) -> CopyTold {
        match self {
            CopyAnswer::Kind(k) => CopyTold::Kind(*k),
            CopyAnswer::Made => CopyTold::Made,
            CopyAnswer::Entries(names) => CopyTold::Entries(views(names@)),
        }
    }
}

/// What has to be done next.
pub open spec fn copy_question(w: CopyPosition) -> CopyQuestion {
    if w.pending.len() == 0 {
        CopyQuestion::Done
    } else {
        let (path, listed) = w.pending.last();
        if listed {
            CopyQuestion::Make(path, Copying::Times)
        } else {
            match w.stage {
                CopyStage::Inspect => CopyQuestion::Inspect(path),
                CopyStage::Make(c) => CopyQuestion::Make(path, c),
                CopyStage::List => CopyQuestion::List(path),
            }
        }
    }
}

/// What came of it is what was to be done.
pub open spec fn copy_fits(w: CopyPosition, told: CopyTold) -> bool {
    match copy_question(w) {
        CopyQuestion::Inspect(_) => told is Kind,
        CopyQuestion::Make(_, _) => told is Made,
        CopyQuestion::List(_) => told is Entries,
        CopyQuestion::Done => false,
    }
}

/// The entries of `dir` with these names, the first one last.
pub open spec fn entries_in(dir: Seq<u8>, names: Seq<Seq<u8>>) -> Seq<(Seq<u8>, bool)> {
    Seq::new(names.len(), |i: int| (joined(dir, names[names.len() - 1 - i]), false))
}

/// Where the cloning stands once what was to be done is done.
pub open spec fn copy_answered(w: CopyPosition, told: CopyTold) -> CopyPosition {
    let on = CopyPosition { pending: w.pending.drop_last(), stage: CopyStage::Inspect };
    match told {
        CopyTold::Kind(kind) => if copying_of(kind) == Copying::Nothing {
            on
        } else {
            CopyPosition { stage: CopyStage::Make(copying_of(kind)), ..w }
        },
        CopyTold::Made => if !w.pending.last().1 && w.stage == CopyStage::Make(
            Copying::Directory,
        ) {
            CopyPosition { stage: CopyStage::List, ..w }
        } else {
            on
        },
        CopyTold::Entries(names) => CopyPosition {
            pending: on.pending.push((w.pending.last().0, true)) + entries_in(
                w.pending.last().0,
                names,
            ),
            ..on
        },
    }
}

struct Pending {
    path: Vec<u8>,
    listed: bool,
}

spec fn tasks(list: Seq<Pending>) -> Seq<(Seq<u8>, bool)> {
    Seq::new(list.len(), |i: int| (list[i].path@, list[i].listed))
}

/// The cloning of a tree.
pub struct TreeCopy {
    pending: Vec<Pending>,
    stage: CopyStage,
}

impl View for TreeCopy {
    type V = CopyPosition;

    closed spec fn view(&self) -> CopyPosition {
        CopyPosition { pending: tasks(self.pending@), stage: self.stage }
    }
}

/// Nothing of the tree has been cloned.
pub open spec fn copy_start() -> CopyPosition {
    CopyPosition { pending: seq![(Seq::empty(), false)], stage: CopyStage::Inspect }
}

/// Clone a file, a symlink or a directory tree to a place where nothing is. Data blocks are
/// shared until either side is modified; the times of modification are preserved so that git's
/// stat data stays valid.
pub fn clone_tree() -> (r: TreeCopy)
    ensures
        r@ == copy_start(),
{
    let mut pending: Vec<Pending> = Vec::new();
    let root: Vec<u8> = Vec::new();
    assert(root@ =~= Seq::<u8>::empty());
    pending.push(Pending { path: root, listed: false });
    assert(tasks(pending@) =~= seq![(Seq::<u8>::empty(), false)]);
    TreeCopy { pending, stage: CopyStage::Inspect }
}

impl TreeCopy {
    /// What has to be done next.
    pub fn request(&self) -> (r: CopyRequest)
        ensures
            r@ == copy_question(self@),
    {
        if self.pending.len() == 0 {
            return CopyRequest::Done;
        }
        let next: &Pending = &self.pending[self.pending.len() - 1];
        let path: Vec<u8> = copy(next.path.as_slice());
        assert((path@, next.listed) == self@.pending.last());
        if next.listed {
            return CopyRequest::Make(path, Copying::Times);
        }
        match self.stage {
            CopyStage::Inspect => CopyRequest::Inspect(path),
            CopyStage::Make(c) => CopyRequest::Make(path, c),
            CopyStage::List => CopyRequest::List(path),
        }
    }

    /// Goes on when it is done.
    pub fn answer(&mut self, answer: CopyAnswer)
        requires
            copy_fits(old(self)@, answer@),
        ensures
            final(self)@ == copy_answered(old(self)@, answer@),
    {
        let ghost before = self.pending@;
        match answer {
            CopyAnswer::Kind(kind) => {
                match copying(kind) {
                    Copying::Nothing => {
                        let _ = self.pending.pop();
                        self.stage = CopyStage::Inspect;
                        assert(tasks(self.pending@) =~= tasks(before).drop_last());
                    },
                    c => {
                        self.stage = CopyStage::Make(c);
                    },
                }
            },
            CopyAnswer::Made => {
                let listed: bool = self.pending[self.pending.len() - 1].listed;
                assert(listed == tasks(before).last().1);
                if !listed && self.stage == CopyStage::Make(Copying::Directory) {
                    self.stage = CopyStage::List;
                } else {
                    let _ = self.pending.pop();
                    self.stage = CopyStage::Inspect;
                    assert(tasks(self.pending@) =~= tasks(before).drop_last());
                }
            },
            CopyAnswer::Entries(names) => {
                if let Some(top) = self.pending.pop() {
                    let dir: Vec<u8> = top.path;
                    let ghost on = tasks(before).drop_last().push((dir@, true));
                    let kept: Vec<u8> = copy(dir.as_slice());
                    self.pending.push(Pending { path: kept, listed: true });
                    assert(tasks(self.pending@) =~= on);
                    let ghost added = entries_in(dir@, views(names@));
                    let mut i: usize = names.len();
                    assert(on + added.take(0) =~= on);
                    while i > 0
                        invariant
                            i <= names@.len(),
                            added == entries_in(dir@, views(names@)),
                            tasks(self.pending@) == on + added.take(names@.len() - i),
                        decreases i,
                    {
                        let ghost list = self.pending@;
                        i -= 1;
                        let path: Vec<u8> = join(dir.as_slice(), names[i].as_slice());
                        let ghost e = (path@, false);
                        self.pending.push(Pending { path, listed: false });
                        proof {
                            let k = names@.len() - i - 1;
                            assert(added[k] == e);
                            assert(added.take(k + 1) =~= added.take(k).push(e));
                            assert(tasks(self.pending@) =~= tasks(list).push(e));
                            assert(on + added.take(k + 1) =~= (on + added.take(k)).push(e));
                        }
                    }
                    assert(added.take(names@.len() as int) =~= added);
                    assert(dir@ == tasks(before).last().0);
                }
                self.stage = CopyStage::Inspect;
            },
        }
    }
}

/// What is made of an entry and all below it, in order.
pub open spec fn made_of(path: Seq<u8>, node: Node) -> Seq<(Seq<u8>, Copying)>
    decreases node,
{
    match copying_of(node.kind) {
        Copying::Nothing => Seq::empty(),
        Copying::Directory => seq![(path, Copying::Directory)] + all_made_of(path, node.children)
            + seq![(path, Copying::Times)],
        c => seq![(path, c)],
    }
}

/// What is made of the entries of `dir` and all below them, in order.
pub open spec fn all_made_of(dir: Seq<u8>, nodes: Seq<Node>) -> Seq<(Seq<u8>, Copying)>
    decreases nodes,
{
    if nodes.len() == 0 {
        Seq::empty()
    } else {
        made_of(joined(dir, nodes[0].name), nodes[0]) + all_made_of(
            dir,
            nodes.subrange(1, nodes.len() as int),
        )
    }
}

/// The names of the entries of a directory.
pub open spec fn entry_names(nodes: Seq<Node>) -> Seq<Seq<u8>> {
    Seq::new(nodes.len(), |i: int| nodes[i].name)
}

/// The cloning of a tree together with the entries that are not done with, in the order of
/// `pending`, and with what has been made.
pub struct CopyTrace {
    pub at: CopyPosition,
    pub nodes: Seq<Node>,
    pub made: Seq<(Seq<u8>, Copying)>,
}

/// What comes of it when all goes well.
pub open spec fn copy_truth(t: CopyTrace) -> CopyTold {
    if t.at.pending.last().1 {
        CopyTold::Made
    } else {
        match t.at.stage {
            CopyStage::Inspect => CopyTold::Kind(t.nodes.last().kind),
            CopyStage::Make(_) => CopyTold::Made,
            CopyStage::List => CopyTold::Entries(entry_names(t.nodes.last().children)),
        }
    }
}

/// Entries in reverse order.
pub open spec fn reversed(nodes: Seq<Node>) -> Seq<Node> {
    Seq::new(nodes.len(), |i: int| nodes[nodes.len() - 1 - i])
}

/// How it goes on when all goes well.
pub open spec fn copy_step(t: CopyTrace) -> CopyTrace {
    let on = t.nodes.drop_last();
    CopyTrace {
        at: copy_answered(t.at, copy_truth(t)),
        nodes: if t.at.pending.last().1 {
            on
        } else {
            match t.at.stage {
                CopyStage::Inspect => if copying_of(t.nodes.last().kind) == Copying::Nothing {
                    on
                } else {
                    t.nodes
                },
                CopyStage::Make(Copying::Directory) => t.nodes,
                CopyStage::Make(_) => on,
                CopyStage::List => t.nodes + reversed(t.nodes.last().children),
            }
        },
        made: match copy_question(t.at) {
            CopyQuestion::Make(path, c) => t.made.push((path, c)),
            _ => t.made,
        },
    }
}

/// How it stands after `n` steps in which all goes well.
pub open spec fn copy_run(t: CopyTrace, n: nat) -> CopyTrace
    decreases n,
{
    if n == 0 {
        t
    } else {
        copy_run(copy_step(t), (n - 1) as nat)
    }
}

/// What is yet to be made of entries that are next in reverse order.
spec fn to_make(pending: Seq<(Seq<u8>, bool)>, nodes: Seq<Node>) -> Seq<(Seq<u8>, Copying)>
    decreases nodes.len(),
{
    if nodes.len() == 0 {
        Seq::empty()
    } else {
        let (path, listed) = pending.last();
        (if listed {
            seq![(path, Copying::Times)]
        } else {
            made_of(path, nodes.last())
        }) + to_make(pending.drop_last(), nodes.drop_last())
    }
}

/// All that has been made or is to be made.
spec fn all_made(t: CopyTrace) -> Seq<(Seq<u8>, Copying)> {
    match t.at.stage {
        CopyStage::List => t.made + (all_made_of(t.at.pending.last().0, t.nodes.last().children)
            + (seq![(t.at.pending.last().0, Copying::Times)] + to_make(
            t.at.pending.drop_last(),
            t.nodes.drop_last(),
        ))),
        _ => t.made + to_make(t.at.pending, t.nodes),
    }
}

spec fn size_of_all(nodes: Seq<Node>) -> nat
    decreases nodes,
{
    if nodes.len() == 0 {
        0
    } else {
        5 + size_of_all(nodes[0].children) + size_of_all(nodes.subrange(1, nodes.len() as int))
    }
}

spec fn pending_size(pending: Seq<(Seq<u8>, bool)>, nodes: Seq<Node>) -> nat
    decreases nodes.len(),
{
    if nodes.len() == 0 {
        0
    } else {
        (if pending.last().1 {
            1
        } else {
            5 + size_of_all(nodes.last().children)
        }) + pending_size(pending.drop_last(), nodes.drop_last())
    }
}

spec fn copy_bound(t: CopyTrace) -> int {
    pending_size(t.at.pending, t.nodes) + match t.at.stage {
        CopyStage::Inspect => 2int,
        CopyStage::Make(_) => 1int,
        CopyStage::List => 0int,
    }
}

spec fn agrees(t: CopyTrace) -> bool {
    &&& t.at.pending.len() == t.nodes.len()
    &&& t.at.stage != CopyStage::Inspect ==> t.nodes.len() > 0 && !t.at.pending.last().1
    &&& t.at.stage matches CopyStage::Make(c) ==> c == copying_of(t.nodes.last().kind) && c
        != Copying::Nothing
    &&& t.at.stage == CopyStage::List ==> copying_of(t.nodes.last().kind) == Copying::Directory
}

proof fn lemma_to_make(
    pending: Seq<(Seq<u8>, bool)>,
    nodes: Seq<Node>,
    dir: Seq<u8>,
    children: Seq<Node>,
)
    requires
        pending.len() == nodes.len(),
    ensures
        to_make(pending + entries_in(dir, entry_names(children)), nodes + reversed(children))
            == all_made_of(dir, children) + to_make(pending, nodes),
        pending_size(
            pending + entries_in(dir, entry_names(children)),
            nodes + reversed(children),
        ) == size_of_all(children) + pending_size(pending, nodes),
    decreases children.len(),
{
    let p = pending + entries_in(dir, entry_names(children));
    let n = nodes + reversed(children);
    if children.len() == 0 {
        assert(p =~= pending);
        assert(n =~= nodes);
        assert(all_made_of(dir, children) + to_make(pending, nodes) =~= to_make(pending, nodes));
    } else {
        let rest = children.subrange(1, children.len() as int);
        lemma_to_make(pending, nodes, dir, rest);
        assert(p.last() == (joined(dir, children[0].name), false));
        assert(n.last() == children[0]);
        assert(p.drop_last() =~= pending + entries_in(dir, entry_names(rest))) by {
            assert forall|i: int| 0 <= i < p.drop_last().len() implies #[trigger] p.drop_last()[i]
                == (pending + entries_in(dir, entry_names(rest)))[i] by {
                if i >= pending.len() {
                    let k = i - pending.len();
                    assert(entry_names(rest)[rest.len() - 1 - k] == entry_names(
                        children,
                    )[children.len() - 1 - k]);
                }
            }
        }
        assert(n.drop_last() =~= nodes + reversed(rest)) by {
            assert forall|i: int| 0 <= i < n.drop_last().len() implies #[trigger] n.drop_last()[i]
                == (nodes + reversed(rest))[i] by {
                if i >= nodes.len() {
                    let k = i - nodes.len();
                    assert(rest[rest.len() - 1 - k] == children[children.len() - 1 - k]);
                }
            }
        }
        let first = made_of(joined(dir, children[0].name), children[0]);
        assert(first + (all_made_of(dir, rest) + to_make(pending, nodes)) =~= (first
            + all_made_of(dir, rest)) + to_make(pending, nodes));
    }
}

proof fn lemma_copy_step(t: CopyTrace)
    requires
        agrees(t),
        t.nodes.len() > 0,
    ensures
        copy_fits(t.at, copy_truth(t)),
        agrees(copy_step(t)),
        all_made(copy_step(t)) == all_made(t),
        copy_bound(copy_step(t)) < copy_bound(t),
{
    let path = t.at.pending.last().0;
    let node = t.nodes.last();
    let rest = to_make(t.at.pending.drop_last(), t.nodes.drop_last());
    let times = seq![(path, Copying::Times)];
    if t.at.pending.last().1 {
        assert(t.made.push((path, Copying::Times)) + rest =~= t.made + (times + rest));
    } else {
        match t.at.stage {
            CopyStage::Inspect => {
                if copying_of(node.kind) == Copying::Nothing {
                    assert(to_make(t.at.pending, t.nodes) =~= rest);
                }
            },
            CopyStage::Make(c) => {
                if c == Copying::Directory {
                    let inner = all_made_of(path, node.children);
                    assert(t.made.push((path, c)) + (inner + (times + rest)) =~= t.made + ((seq![
                        (path, c),
                    ] + inner + times) + rest));
                } else {
                    assert(made_of(path, node) =~= seq![(path, c)]);
                    assert(t.made.push((path, c)) + rest =~= t.made + (seq![(path, c)] + rest));
                }
            },
            CopyStage::List => {
                let kept = t.at.pending.drop_last().push((path, true));
                lemma_to_make(kept, t.nodes, path, node.children);
                assert(kept.drop_last() =~= t.at.pending.drop_last());
            },
        }
    }
}

proof fn lemma_copy_run(t: CopyTrace) -> (n: nat)
    requires
        agrees(t),
    ensures
        copy_question(copy_run(t, n).at) is Done,
        copy_run(t, n).made == all_made(t),
        forall|k: nat|
            k < n ==> #[trigger] copy_fits(copy_run(t, k).at, copy_truth(copy_run(t, k))),
    decreases copy_bound(t),
{
    if t.nodes.len() == 0 {
        assert(all_made(t) =~= t.made);
        assert(copy_run(t, 0) == t);
        0
    } else {
        lemma_copy_step(t);
        let v = copy_step(t);
        let m = lemma_copy_run(v);
        let n = (m + 1) as nat;
        assert(copy_run(t, n) == copy_run(v, m));
        assert forall|k: nat| k < n implies #[trigger] copy_fits(
            copy_run(t, k).at,
            copy_truth(copy_run(t, k)),
        ) by {
            if k == 0 {
                assert(copy_run(t, k) == t);
            } else {
                assert(copy_run(t, k) == copy_run(v, (k - 1) as nat));
                assert(copy_fits(
                    copy_run(v, (k - 1) as nat).at,
                    copy_truth(copy_run(v, (k - 1) as nat)),
                ));
            }
        }
        n
    }
}

/// When all goes well, cloning a tree comes to an end, and then every directory, symbolic link
/// and file of it has been made once, each directory before what is in it, and each directory
/// has got its time of modification after that.
pub proof fn law_tree_is_cloned(node: Node) -> (n: nat)
    ensures
        ({
            let t = CopyTrace { at: copy_start(), nodes: seq![node], made: Seq::empty() };
            &&& copy_question(copy_run(t, n).at) is Done
            &&& copy_run(t, n).made == made_of(Seq::empty(), node)
            &&& forall|k: nat|
                k < n ==> #[trigger] copy_fits(copy_run(t, k).at, copy_truth(copy_run(t, k)))
        }),
{
    let t = CopyTrace { at: copy_start(), nodes: seq![node], made: Seq::empty() };
    let n = lemma_copy_run(t);
    reveal_with_fuel(to_make, 2);
    assert(t.nodes.drop_last() =~= Seq::<Node>::empty());
    assert(all_made(t) =~= made_of(Seq::empty(), node));
    n
}

/// What is made of the entries of a directory and all below them is made of each of them.
proof fn lemma_held_is_made(
    dir: Seq<u8>,
    nodes: Seq<Node>,
    above: bool,
    path: Seq<u8>,
    node: Node,
    ignored: bool,
    c: Copying,
)
    requires
        only_directories_hold(nodes),
        holds(nodes, dir, above, path, node, ignored),
        made_of(path, node).contains((path, c)),
    ensures
        all_made_of(dir, nodes).contains((path, c)),
    decreases nodes,
{
    let first = joined(dir, nodes[0].name);
    let below = above || nodes[0].ignored;
    let rest = nodes.subrange(1, nodes.len() as int);
    let head = made_of(first, nodes[0]);
    let tail = all_made_of(dir, rest);
    let all = all_made_of(dir, nodes);
    if path == first && node == nodes[0] {
        let i = head.index_of((path, c));
        assert(all[i] == head[i]);
    } else if holds(nodes[0].children, first, below, path, node, ignored) {
        lemma_held_is_made(first, nodes[0].children, below, path, node, ignored, c);
        let inner = all_made_of(first, nodes[0].children);
        let i = inner.index_of((path, c));
        assert(head[i + 1] == inner[i]);
        assert(all[i + 1] == head[i + 1]);
    } else {
        lemma_held_is_made(dir, rest, above, path, node, ignored, c);
        let i = tail.index_of((path, c));
        assert(all[head.len() + i] == tail[i]);
    }
}

/// Of a tree, every directory is made and gets its time of modification, every symbolic link is
/// made, and every file shares its blocks, at whatever depth: `path` is that of such an entry.
pub proof fn law_every_entry_is_made(tree: Node, path: Seq<u8>, node: Node, ignored: bool)
    requires
        tree.kind == FileKind::Directory,
        only_directories_hold(tree.children),
        holds(tree.children, Seq::empty(), false, path, node, ignored),
    ensures
        node.kind == FileKind::File ==> made_of(Seq::empty(), tree).contains(
            (path, Copying::Reflink),
        ),
        node.kind == FileKind::Symlink ==> made_of(Seq::empty(), tree).contains(
            (path, Copying::Link),
        ),
        node.kind == FileKind::Directory ==> made_of(Seq::empty(), tree).contains(
            (path, Copying::Directory),
        ) && made_of(Seq::empty(), tree).contains((path, Copying::Times)),
{
    let inner = all_made_of(Seq::empty(), tree.children);
    let all = made_of(Seq::empty(), tree);
    let own = made_of(path, node);
    if node.kind == FileKind::File {
        assert(own[0] == (path, Copying::Reflink));
        lemma_held_is_made(
            Seq::empty(),
            tree.children,
            false,
            path,
            node,
            ignored,
            Copying::Reflink,
        );
        let i = inner.index_of((path, Copying::Reflink));
        assert(all[i + 1] == inner[i]);
    } else if node.kind == FileKind::Symlink {
        assert(own[0] == (path, Copying::Link));
        lemma_held_is_made(
            Seq::empty(),
            tree.children,
            false,
            path,
            node,
            ignored,
            Copying::Link,
        );
        let i = inner.index_of((path, Copying::Link));
        assert(all[i + 1] == inner[i]);
    } else if node.kind == FileKind::Directory {
        assert(own[0] == (path, Copying::Directory));
        assert(own[own.len() - 1] == (path, Copying::Times));
        lemma_held_is_made(
            Seq::empty(),
            tree.children,
            false,
            path,
            node,
            ignored,
            Copying::Directory,
        );
        lemma_held_is_made(
            Seq::empty(),
            tree.children,
            false,
            path,
            node,
            ignored,
            Copying::Times,
        );
        let i = inner.index_of((path, Copying::Directory));
        assert(all[i + 1] == inner[i]);
        let k = inner.index_of((path, Copying::Times));
        assert(all[k + 1] == inner[k]);
    }
}

/// A directory is made before all that is in it, and gets its time of modification after all of
/// it; the entries of a directory are made one after the other. A file or a link is made by
/// itself, and nothing is made of anything else.
pub proof fn law_directories_come_first_and_get_their_times_last(
    path: Seq<u8>,
    node: Node,
    dir: Seq<u8>,
    a: Node,
    b: Seq<Node>,
)
    ensures
        node.kind == FileKind::Directory ==> made_of(path, node) == seq![
            (path, Copying::Directory),
        ] + all_made_of(path, node.children) + seq![(path, Copying::Times)],
        node.kind == FileKind::File ==> made_of(path, node) == seq![(path, Copying::Reflink)],
        node.kind == FileKind::Symlink ==> made_of(path, node) == seq![(path, Copying::Link)],
        node.kind != FileKind::Directory && node.kind != FileKind::File && node.kind
            != FileKind::Symlink ==> made_of(path, node).len() == 0,
        all_made_of(dir, Seq::empty()).len() == 0,
        all_made_of(dir, seq![a] + b) == made_of(joined(dir, a.name), a) + all_made_of(dir, b),
{
    assert((seq![a] + b).subrange(1, (seq![a] + b).len() as int) =~= b);
}

} // verus!
