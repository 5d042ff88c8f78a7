//! Searching a directory for other checkouts: anything named `.git`, at any depth.
use vstd::prelude::*;
use vstd::string::*;
use vstd::utf8::*;
use crate::bytes::{copy, same, views};
use crate::path::{join, joined};
use crate::rules::FileKind;
use crate::select::{listing, Listed};
use crate::tree::{contains_name, names_of, only_directories_hold, weight, Node};

verus! {

/// How a search stands.
pub struct SearchPosition {
    /// The directories that have not been looked at, the next one last.
    pub pending: Seq<Seq<u8>>,
    /// Something was found.
    pub found: bool,
}

/// There is an entry named `.git` in a directory with these entries.
pub open spec fn has_git(list: Seq<(Seq<u8>, FileKind)>) -> bool {
    exists|i: int| 0 <= i < list.len() && (#[trigger] list[i]).0 == encode_utf8(".git"@)
}

/// The directories in `dir`, which has these entries.
pub open spec fn directories_in(dir: Seq<u8>, list: Seq<(Seq<u8>, FileKind)>) -> Seq<Seq<u8>>
    decreases list.len(),
{
    if list.len() == 0 {
        Seq::empty()
    } else {
        let others = directories_in(dir, list.drop_last());
        if list.last().1 == FileKind::Directory {
            others.push(joined(dir, list.last().0))
        } else {
            others
        }
    }
}

/// How a search stands that has not begun.
pub open spec fn search_start(dir: Seq<u8>) -> SearchPosition {
    SearchPosition { pending: seq![dir], found: false }
}

/// How it stands when it is known what is in the next directory. Nothing more is looked at once
/// something was found, and links are not followed.
pub open spec fn search_told(w: SearchPosition, list: Seq<(Seq<u8>, FileKind)>) -> SearchPosition {
    if has_git(list) {
        SearchPosition { pending: Seq::empty(), found: true }
    } else {
        SearchPosition {
            pending: w.pending.drop_last() + directories_in(w.pending.last(), list),
            found: w.found,
        }
    }
}

/// A search for other checkouts.
pub struct Search {
    pending: Vec<Vec<u8>>,
    found: bool,
}

impl View for Search {
    type V = SearchPosition;

    closed spec fn view(&self) -> SearchPosition {
        SearchPosition { pending: views(self.pending@), found: self.found }
    }
}

impl Search {
    /// A search of the directory `dir`.
    pub fn start(dir: &[u8]) -> (r: Search)
        ensures
            r@ == search_start(dir@),
    {
        let mut pending: Vec<Vec<u8>> = Vec::new();
        let first: Vec<u8> = copy(dir);
        pending.push(first);
        assert(views(pending@) =~= seq![dir@]);
        Search { pending, found: false }
    }

    /// The directory that has to be listed next; none when the search is over.
    pub fn request(&self) -> (r: Option<Vec<u8>>)
        ensures
            r is Some <==> self@.pending.len() > 0,
            r matches Some(dir) ==> dir@ == self@.pending.last(),
    {
        if self.pending.len() == 0 {
            return None;
        }
        Some(copy(self.pending[self.pending.len() - 1].as_slice()))
    }

    /// Goes on when it is known what is in the directory; one that cannot be listed has no
    /// entries.
    pub fn answer(&mut self, entries: &Vec<Listed>)
        requires
            old(self)@.pending.len() > 0,
        ensures
            final(self)@ == search_told(old(self)@, listing(entries@)),
    {
        let ghost before = views(self.pending@);
        let ghost all = listing(entries@);
        let mut i: usize = 0;
        while i < entries.len()
            invariant
                i <= entries@.len(),
                all == listing(entries@),
                self@ == old(self)@,
                forall|j: int| 0 <= j < i ==> (#[trigger] all[j]).0 != encode_utf8(".git"@),
            decreases entries@.len() - i,
        {
            assert(all[i as int] == entries@[i as int]@);
            if same(entries[i].name.as_slice(), ".git".as_bytes()) {
                self.pending = Vec::new();
                self.found = true;
                assert(views(self.pending@) =~= Seq::<Seq<u8>>::empty());
                return;
            }
            i += 1;
        }
        if let Some(dir) = self.pending.pop() {
            let ghost on = before.drop_last();
            assert(views(self.pending@) =~= on);
            assert(dir@ == before.last());
            let mut k: usize = 0;
            assert(on + directories_in(dir@, all.take(0)) =~= on);
            while k < entries.len()
                invariant
                    k <= entries@.len(),
                    all == listing(entries@),
                    self.found == old(self).found,
                    views(self.pending@) == on + directories_in(dir@, all.take(k as int)),
                decreases entries@.len() - k,
            {
                let ghost done = directories_in(dir@, all.take(k as int));
                let ghost list = self.pending@;
                assert(all.take(k + 1).drop_last() =~= all.take(k as int));
                assert(all.take(k + 1).last() == entries@[k as int]@);
                if entries[k].kind == FileKind::Directory {
                    let path: Vec<u8> = join(dir.as_slice(), entries[k].name.as_slice());
                    self.pending.push(path);
                    assert(views(self.pending@) =~= views(list).push(path@));
                    assert((on + done).push(path@) =~= on + done.push(path@));
                }
                k += 1;
            }
            assert(all.take(k as int) =~= all);
        }
    }

    /// Whether something was found.
    pub fn found(&self) -> (r: bool)
        ensures
            r == self@.found,
    {
        self.found
    }
}

/// A search together with the directories that have not been looked at, in the order of
/// `pending`.
pub struct SearchTrace {
    pub at: SearchPosition,
    pub nodes: Seq<Node>,
}

/// The directories among the entries.
pub open spec fn directory_nodes(nodes: Seq<Node>) -> Seq<Node>
    decreases nodes.len(),
{
    if nodes.len() == 0 {
        Seq::empty()
    } else {
        let others = directory_nodes(nodes.drop_last());
        if nodes.last().kind == FileKind::Directory {
            others.push(nodes.last())
        } else {
            others
        }
    }
}

/// How a search goes on when it is told the truth.
pub open spec fn search_step(t: SearchTrace) -> SearchTrace {
    let children = t.nodes.last().children;
    let at = search_told(t.at, names_of(children));
    SearchTrace {
        at,
        nodes: if at.found {
            Seq::empty()
        } else {
            t.nodes.drop_last() + directory_nodes(children)
        },
    }
}

/// How it stands after `n` steps.
pub open spec fn search_run(t: SearchTrace, n: nat) -> SearchTrace
    decreases n,
{
    if n == 0 {
        t
    } else {
        search_run(search_step(t), (n - 1) as nat)
    }
}

/// Something named `.git` lies below one of the directories.
spec fn is_below_some(nodes: Seq<Node>) -> bool {
    exists|i: int|
        0 <= i < nodes.len() && contains_name(
            (#[trigger] nodes[i]).children,
            encode_utf8(".git"@),
        )
}

spec fn total_weight(nodes: Seq<Node>) -> nat
    decreases nodes.len(),
{
    if nodes.len() == 0 {
        0
    } else {
        total_weight(nodes.drop_last()) + 10 + weight(nodes.last().children)
    }
}

/// A name is among the entries or below them if it is that of one of them, or lies below one of
/// the directories among them.
proof fn lemma_where_named(nodes: Seq<Node>)
    requires
        only_directories_hold(nodes),
    ensures
        contains_name(nodes, encode_utf8(".git"@)) <==> has_git(names_of(nodes)) || is_below_some(
            directory_nodes(nodes),
        ),
        forall|i: int|
            0 <= i < directory_nodes(nodes).len() ==> only_directories_hold(
                (#[trigger] directory_nodes(nodes)[i]).children,
            ),
        total_weight(directory_nodes(nodes)) <= weight(nodes),
    decreases nodes.len(),
{
    if nodes.len() > 0 {
        let init = nodes.drop_last();
        let last = nodes.last();
        let git = encode_utf8(".git"@);
        lemma_split_last(nodes);
        lemma_where_named(init);
        let d = directory_nodes(init);
        let all = directory_nodes(nodes);
        assert(names_of(nodes).drop_last() =~= names_of(init));
        assert(has_git(names_of(nodes)) <==> has_git(names_of(init)) || last.name == git) by {
            if has_git(names_of(init)) {
                let i = choose|i: int|
                    0 <= i < names_of(init).len() && (#[trigger] names_of(init)[i]).0 == git;
                assert(names_of(nodes)[i].0 == git);
            }
            if last.name == git {
                assert(names_of(nodes)[nodes.len() - 1].0 == git);
            }
            if has_git(names_of(nodes)) {
                let i = choose|i: int|
                    0 <= i < names_of(nodes).len() && (#[trigger] names_of(nodes)[i]).0 == git;
                if i < init.len() {
                    assert(names_of(init)[i].0 == git);
                }
            }
        }
        if last.kind == FileKind::Directory {
            assert(all.drop_last() =~= d);
            assert(is_below_some(all) <==> is_below_some(d) || contains_name(
                last.children,
                git,
            )) by {
                if is_below_some(d) {
                    let i = choose|i: int|
                        0 <= i < d.len() && contains_name((#[trigger] d[i]).children, git);
                    assert(all[i] == d[i]);
                }
                if contains_name(last.children, git) {
                    assert(contains_name(all[all.len() - 1].children, git));
                }
                if is_below_some(all) {
                    let i = choose|i: int|
                        0 <= i < all.len() && contains_name((#[trigger] all[i]).children, git);
                    if i < d.len() {
                        assert(d[i] == all[i]);
                    }
                }
            }
            assert forall|i: int| 0 <= i < all.len() implies only_directories_hold(
                (#[trigger] all[i]).children,
            ) by {
                if i < d.len() {
                    assert(all[i] == d[i]);
                }
            }
        } else {
            assert(last.children.len() == 0);
        }
    }
}

/// Taking the last entry off.
proof fn lemma_split_last(nodes: Seq<Node>)
    requires
        nodes.len() > 0,
        only_directories_hold(nodes),
    ensures
        only_directories_hold(nodes.drop_last()),
        only_directories_hold(nodes.last().children),
        nodes.last().children.len() > 0 ==> nodes.last().kind == FileKind::Directory,
        contains_name(nodes, encode_utf8(".git"@)) <==> contains_name(
            nodes.drop_last(),
            encode_utf8(".git"@),
        ) || nodes.last().name == encode_utf8(".git"@) || contains_name(
            nodes.last().children,
            encode_utf8(".git"@),
        ),
        weight(nodes) == weight(nodes.drop_last()) + 10 + weight(nodes.last().children),
    decreases nodes.len(),
{
    let rest = nodes.subrange(1, nodes.len() as int);
    let init = nodes.drop_last();
    if nodes.len() == 1 {
        assert(init =~= Seq::<Node>::empty());
        assert(rest =~= Seq::<Node>::empty());
    } else {
        lemma_split_last(rest);
        assert(init.subrange(1, init.len() as int) =~= rest.drop_last());
        assert(rest.last() == nodes.last());
    }
}

/// A list of directories is below which something lies, put together from two.
proof fn lemma_below_sum(a: Seq<Node>, b: Seq<Node>)
    ensures
        is_below_some(a + b) <==> is_below_some(a) || is_below_some(b),
        total_weight(a + b) == total_weight(a) + total_weight(b),
    decreases b.len(),
{
    let git = encode_utf8(".git"@);
    let c = a + b;
    if is_below_some(a) {
        let i = choose|i: int| 0 <= i < a.len() && contains_name((#[trigger] a[i]).children, git);
        assert(c[i] == a[i]);
    }
    if is_below_some(b) {
        let i = choose|i: int| 0 <= i < b.len() && contains_name((#[trigger] b[i]).children, git);
        assert(c[a.len() + i] == b[i]);
    }
    if is_below_some(c) {
        let i = choose|i: int| 0 <= i < c.len() && contains_name((#[trigger] c[i]).children, git);
        if i < a.len() {
            assert(a[i] == c[i]);
        } else {
            assert(b[i - a.len()] == c[i]);
        }
    }
    if b.len() == 0 {
        assert(c =~= a);
    } else {
        lemma_below_sum(a, b.drop_last());
        assert(c.drop_last() =~= a + b.drop_last());
    }
}

proof fn lemma_same_length(dir: Seq<u8>, nodes: Seq<Node>)
    ensures
        directories_in(dir, names_of(nodes)).len() == directory_nodes(nodes).len(),
    decreases nodes.len(),
{
    if nodes.len() > 0 {
        lemma_same_length(dir, nodes.drop_last());
        assert(names_of(nodes).drop_last() =~= names_of(nodes.drop_last()));
    }
}

proof fn lemma_search(t: SearchTrace) -> (n: nat)
    requires
        t.at.pending.len() == t.nodes.len(),
        t.at.found ==> t.nodes.len() == 0,
        forall|i: int|
            0 <= i < t.nodes.len() ==> only_directories_hold((#[trigger] t.nodes[i]).children),
    ensures
        search_run(t, n).at.pending.len() == 0,
        search_run(t, n).at.found == (t.at.found || is_below_some(t.nodes)),
        forall|k: nat| k < n ==> (#[trigger] search_run(t, k)).at.pending.len() > 0,
    decreases total_weight(t.nodes),
{
    if t.nodes.len() == 0 {
        assert(search_run(t, 0) == t);
        0
    } else {
        let v = search_step(t);
        let top = t.nodes.last();
        let others = t.nodes.drop_last();
        assert(only_directories_hold(t.nodes[t.nodes.len() - 1].children));
        lemma_where_named(top.children);
        lemma_same_length(t.at.pending.last(), top.children);
        lemma_below_sum(others, seq![top]);
        lemma_below_sum(others, directory_nodes(top.children));
        assert(others + seq![top] =~= t.nodes);
        assert(is_below_some(seq![top]) <==> contains_name(
            top.children,
            encode_utf8(".git"@),
        )) by {
            assert(seq![top][0] == top);
        }
        assert forall|i: int| 0 <= i < v.nodes.len() implies only_directories_hold(
            (#[trigger] v.nodes[i]).children,
        ) by {
            if i < others.len() {
                assert(v.nodes[i] == t.nodes[i]);
            } else {
                assert(v.nodes[i] == directory_nodes(top.children)[i - others.len()]);
            }
        }
        let m = lemma_search(v);
        let n = (m + 1) as nat;
        assert(search_run(t, n) == search_run(v, m));
        assert forall|k: nat| k < n implies (#[trigger] search_run(t, k)).at.pending.len() > 0 by {
            if k == 0 {
                assert(search_run(t, k) == t);
            } else {
                assert(search_run(t, k) == search_run(v, (k - 1) as nat));
            }
        }
        n
    }
}

/// A search that is told the truth about a directory comes to an end, and then it has found
/// something exactly if anything named `.git` lies in the directory, at any depth.
pub proof fn law_search_finds_checkouts(dir: Seq<u8>, node: Node) -> (n: nat)
    requires
        only_directories_hold(node.children),
    ensures
        ({
            let t = SearchTrace { at: search_start(dir), nodes: seq![node] };
            &&& search_run(t, n).at.pending.len() == 0
            &&& search_run(t, n).at.found == contains_name(node.children, encode_utf8(".git"@))
            &&& forall|k: nat| k < n ==> (#[trigger] search_run(t, k)).at.pending.len() > 0
        }),
{
    let t = SearchTrace { at: search_start(dir), nodes: seq![node] };
    let n = lemma_search(t);
    assert(is_below_some(seq![node]) <==> contains_name(
        node.children,
        encode_utf8(".git"@),
    )) by {
        assert(seq![node][0] == node);
    }
    n
}

} // verus!
