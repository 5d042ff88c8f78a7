//! Leaving submodules as a fresh checkout does.
//!
//! Cloned submodule checkouts have `.git` files pointing into the source's gitdir; empty
//! directories are left in their place. The path of a submodule is walked one component at a
//! time without following symlinks: a symlinked parent is removed (checkout recreates it as a
//! directory), never followed out of the worktree.
use vstd::prelude::*;
use crate::bytes::{copy, views};
use crate::order::SEP;
use crate::path::{is_parent, lemma_parents_of, parents, parents_of};
use crate::stat::{entries_of, Entry, IndexEntry};

verus! {

/// The mode of an index entry that is a submodule.
pub const GITLINK: u32 = 0o160000;

/// The paths of the submodules of an index.
pub open spec fn submodule_paths(entries: Seq<Entry>) -> Seq<Seq<u8>>
    decreases entries.len(),
{
    if entries.len() == 0 {
        Seq::empty()
    } else {
        let others = submodule_paths(entries.drop_last());
        if entries.last().mode == GITLINK {
            others.push(entries.last().path)
        } else {
            others
        }
    }
}

/// The paths of the submodules of an index.
pub fn submodules(entries: &Vec<IndexEntry>) -> (r: Vec<Vec<u8>>)
    ensures
        views(r@) == submodule_paths(entries_of(entries@)),
{
    let mut r: Vec<Vec<u8>> = Vec::new();
    let ghost all = entries_of(entries@);
    let mut i: usize = 0;
    assert(views(r@) =~= submodule_paths(all.take(0)));
    while i < entries.len()
        invariant
            i <= entries@.len(),
            all == entries_of(entries@),
            views(r@) == submodule_paths(all.take(i as int)),
        decreases entries@.len() - i,
    {
        assert(all.take(i + 1).drop_last() =~= all.take(i as int));
        assert(all.take(i + 1).last() == entries@[i as int]@);
        if entries[i].mode == GITLINK {
            let ghost list = r@;
            let path: Vec<u8> = copy(entries[i].path.as_slice());
            r.push(path);
            assert(views(r@) =~= views(list).push(path@));
        }
        i += 1;
    }
    assert(all.take(i as int) =~= all);
    r
}

/// What is at a path, without following links.
#[derive(Clone, Copy, Debug, PartialEq, Eq, Structural)]
pub enum Found {
    Directory,
    /// A file, a link or anything else.
    Other,
    Nothing,
}

/// Where the resetting of a submodule stands.
#[derive(Clone, Copy, Debug, PartialEq, Eq, Structural)]
pub enum ResetStage {
    Inspect,
    Empty,
    Remove,
    Done,
}

/// Where the resetting of a submodule stands.
pub struct ResetPosition {
    /// The directories on the way to the submodule, and the submodule last.
    pub dirs: Seq<Seq<u8>>,
    /// How many of them are known to be directories.
    pub known: nat,
    pub stage: ResetStage,
}

/// What has to be done next.
pub enum ResetRequest {
    /// Say what is at this path, without following links.
    Inspect(Vec<u8>),
    /// Put an empty directory in the place of this directory.
    Empty(Vec<u8>),
    /// Remove this file or link.
    Remove(Vec<u8>),
    /// Nothing: it is over.
    Done,
}

/// What has to be done next.
pub enum ResetQuestion {
    Inspect(Seq<u8>),
    Empty(Seq<u8>),
    Remove(Seq<u8>),
    Done,
}

impl View for ResetRequest {
    type V = ResetQuestion;

    open spec fn view(&self) -> ResetQuestion {
        match self {
            ResetRequest::Inspect(p) => ResetQuestion::Inspect(p@),
            ResetRequest::Empty(p) => ResetQuestion::Empty(p@),
            ResetRequest::Remove(p) => ResetQuestion::Remove(p@),
            ResetRequest::Done => ResetQuestion::Done,
        }
    }
}

/// What has to be done next.
pub open spec fn reset_question(w: ResetPosition) -> ResetQuestion {
    let path = w.dirs[w.known as int];
    match w.stage {
        ResetStage::Inspect => ResetQuestion::Inspect(path),
        ResetStage::Empty => ResetQuestion::Empty(path),
        ResetStage::Remove => ResetQuestion::Remove(path),
        ResetStage::Done => ResetQuestion::Done,
    }
}

/// Nothing is known of the way to the submodule.
pub open spec fn reset_start(path: Seq<u8>) -> ResetPosition {
    ResetPosition { dirs: parents_of(path).push(path), known: 0, stage: ResetStage::Inspect }
}

/// Where it stands once it is known what is at the path.
pub open spec fn reset_found(w: ResetPosition, found: Found) -> ResetPosition {
    match found {
        Found::Directory => if w.known + 1 == w.dirs.len() {
            ResetPosition { stage: ResetStage::Empty, ..w }
        } else {
            ResetPosition { known: w.known + 1, ..w }
        },
        Found::Other => ResetPosition { stage: ResetStage::Remove, ..w },
        Found::Nothing => ResetPosition { stage: ResetStage::Done, ..w },
    }
}

/// The resetting of a submodule.
pub struct Reset {
    dirs: Vec<Vec<u8>>,
    known: usize,
    stage: ResetStage,
}

impl View for Reset {
    type V = ResetPosition;

    closed spec fn view(&self) -> ResetPosition {
        ResetPosition { dirs: views(self.dirs@), known: self.known as nat, stage: self.stage }
    }
}

impl Reset {
    pub open spec fn wf(&self) -> bool {
        self@.known < self@.dirs.len()
    }

    /// The resetting of the submodule at `path`, which is relative to the worktree.
    pub fn start(path: &[u8]) -> (r: Reset)
        ensures
            r.wf(),
            r@ == reset_start(path@),
    {
        let mut dirs: Vec<Vec<u8>> = parents(path);
        let ghost list = dirs@;
        let last: Vec<u8> = copy(path);
        dirs.push(last);
        assert(views(dirs@) =~= views(list).push(path@));
        Reset { dirs, known: 0, stage: ResetStage::Inspect }
    }

    /// What has to be done next.
    pub fn request(&self) -> (r: ResetRequest)
        requires
            self.wf(),
        ensures
            r@ == reset_question(self@),
    {
        match self.stage {
            ResetStage::Inspect => ResetRequest::Inspect(copy(self.dirs[self.known].as_slice())),
            ResetStage::Empty => ResetRequest::Empty(copy(self.dirs[self.known].as_slice())),
            ResetStage::Remove => ResetRequest::Remove(copy(self.dirs[self.known].as_slice())),
            ResetStage::Done => ResetRequest::Done,
        }
    }

    /// Goes on when it is known what is at the path.
    pub fn found(&mut self, found: Found)
        requires
            old(self).wf(),
            reset_question(old(self)@) is Inspect,
        ensures
            final(self).wf(),
            final(self)@ == reset_found(old(self)@, found),
    {
        match found {
            Found::Directory => {
                let last: usize = self.dirs.len() - 1;
                if self.known == last {
                    self.stage = ResetStage::Empty;
                } else {
                    self.known = self.known + 1;
                }
            },
            Found::Other => {
                self.stage = ResetStage::Remove;
            },
            Found::Nothing => {
                self.stage = ResetStage::Done;
            },
        }
    }

    /// Goes on when the path has been emptied or removed.
    pub fn done(&mut self)
        requires
            old(self).wf(),
            reset_question(old(self)@) is Empty || reset_question(old(self)@) is Remove,
        ensures
            final(self).wf(),
            final(self)@ == (ResetPosition { stage: ResetStage::Done, ..old(self)@ }),
    {
        self.stage = ResetStage::Done;
    }
}

/// Where it stands once `found` is known of one path after the other.
pub open spec fn reset_after(path: Seq<u8>, found: Seq<Found>) -> ResetPosition
    decreases found.len(),
{
    if found.len() == 0 {
        reset_start(path)
    } else {
        reset_found(reset_after(path, found.drop_last()), found.last())
    }
}

/// Each of `found` was asked for.
pub open spec fn all_asked(path: Seq<u8>, found: Seq<Found>) -> bool
    decreases found.len(),
{
    found.len() == 0 || all_asked(path, found.drop_last()) && reset_question(
        reset_after(path, found.drop_last()),
    ) is Inspect
}

/// The path that is inspected, emptied or removed.
pub open spec fn subject(q: ResetQuestion) -> Option<Seq<u8>> {
    match q {
        ResetQuestion::Inspect(p) => Some(p),
        ResetQuestion::Empty(p) => Some(p),
        ResetQuestion::Remove(p) => Some(p),
        ResetQuestion::Done => None,
    }
}

proof fn lemma_known(path: Seq<u8>, found: Seq<Found>)
    requires
        all_asked(path, found),
    ensures
        ({
            let w = reset_after(path, found);
            &&& w.dirs == parents_of(path).push(path)
            &&& w.known < w.dirs.len()
            &&& w.known <= found.len()
            &&& forall|k: int| 0 <= k < w.known ==> found[k] == Found::Directory
            &&& w.stage == ResetStage::Inspect ==> w.known == found.len()
            &&& w.stage == ResetStage::Empty ==> w.known == w.dirs.len() - 1 && found.len()
                == w.known + 1 && found.last() == Found::Directory
            &&& w.stage == ResetStage::Remove ==> found.len() == w.known + 1 && found.last()
                == Found::Other
        }),
    decreases found.len(),
{
    if found.len() > 0 {
        lemma_known(path, found.drop_last());
        let v = reset_after(path, found.drop_last());
        assert forall|k: int| 0 <= k < v.known implies found[k] == Found::Directory by {
            assert(found.drop_last()[k] == found[k]);
        }
    }
}

/// The directories on the way to a path stand in order, each on the way to those after it.
proof fn lemma_parents_in_order(path: Seq<u8>, k: int)
    requires
        0 <= k < parents_of(path).len(),
    ensures
        parents_of(parents_of(path)[k]) == parents_of(path).take(k),
    decreases path.len(),
{
    let q = path.drop_last();
    let all = parents_of(path);
    if path.last() == SEP {
        if k < parents_of(q).len() {
            lemma_parents_in_order(q, k);
            assert(all.take(k) =~= parents_of(q).take(k));
        } else {
            assert(all.take(k) =~= parents_of(q));
        }
    } else {
        lemma_parents_in_order(q, k);
    }
}

/// Whatever is found: the resetting of a submodule inspects, empties or removes a path only
/// when everything on the way to it has been found to be a directory, so no link is ever
/// followed.
pub proof fn law_reset_follows_no_link(path: Seq<u8>, found: Seq<Found>, dir: Seq<u8>)
    requires
        all_asked(path, found),
        subject(reset_question(reset_after(path, found))) is Some,
        is_parent(dir, subject(reset_question(reset_after(path, found)))->0),
    ensures
        exists|k: int|
            0 <= k < found.len() && #[trigger] found[k] == Found::Directory && (parents_of(
                path,
            ).push(path))[k] == dir,
{
    let w = reset_after(path, found);
    let p = w.dirs[w.known as int];
    let all = parents_of(path);
    lemma_known(path, found);
    lemma_parents_of(p, dir);
    if w.known < all.len() {
        lemma_parents_in_order(path, w.known as int);
        assert(parents_of(p) == all.take(w.known as int));
    }
    let k = parents_of(p).index_of(dir);
    assert(parents_of(p)[k] == dir);
    assert(all[k] == dir);
    assert(found[k] == Found::Directory);
}

/// The resetting of a submodule empties only the submodule itself, found to be a directory, and
/// removes only what was found to be no directory.
pub proof fn law_reset_empties_only_the_submodule(path: Seq<u8>, found: Seq<Found>)
    requires
        all_asked(path, found),
    ensures
        reset_question(reset_after(path, found)) matches ResetQuestion::Empty(p) ==> p == path
            && found.last() == Found::Directory,
        reset_question(reset_after(path, found)) is Remove ==> found.last() == Found::Other,
{
    lemma_known(path, found);
}

/// Every entry with the mode of a submodule is listed as one, and nothing else: a path is listed
/// as often as it has such an entry.
pub proof fn law_every_submodule_is_listed(entries: Seq<Entry>, i: int, path: Seq<u8>)
    ensures
        0 <= i < entries.len() && entries[i].mode == 0o160000 ==> submodule_paths(
            entries,
        ).contains(entries[i].path),
        submodule_paths(entries).contains(path) ==> exists|k: int|
            0 <= k < entries.len() && (#[trigger] entries[k]).path == path && entries[k].mode
                == 0o160000,
    decreases entries.len(),
{
    if entries.len() > 0 {
        let init = entries.drop_last();
        let others = submodule_paths(init);
        let all = submodule_paths(entries);
        law_every_submodule_is_listed(init, i, path);
        assert(entries[entries.len() - 1] == entries.last());
        if 0 <= i < entries.len() && entries[i].mode == 0o160000 {
            if i < init.len() {
                assert(init[i] == entries[i]);
                let k = others.index_of(entries[i].path);
                assert(all[k] == entries[i].path);
            } else {
                assert(all[others.len() as int] == entries[i].path);
            }
        }
        if all.contains(path) {
            let m = all.index_of(path);
            if m < others.len() {
                assert(others[m] == path);
                let k = choose|k: int|
                    0 <= k < init.len() && (#[trigger] init[k]).path == path && init[k].mode
                        == 0o160000;
                assert(entries[k] == init[k]);
            }
        }
    }
}

/// The submodules of two lists of entries, one after the other, are those of the first and then
/// those of the second.
pub proof fn law_submodules_of_all_entries(a: Seq<Entry>, b: Seq<Entry>)
    ensures
        submodule_paths(a + b) == submodule_paths(a) + submodule_paths(b),
    decreases b.len(),
{
    if b.len() == 0 {
        assert(a + b =~= a);
        assert(submodule_paths(a) + submodule_paths(b) =~= submodule_paths(a));
    } else {
        law_submodules_of_all_entries(a, b.drop_last());
        assert((a + b).drop_last() =~= a + b.drop_last());
        assert((a + b).last() == b.last());
        assert(submodule_paths(a + b) =~= submodule_paths(a) + submodule_paths(b));
    }
}

proof fn lemma_all_directories(path: Seq<u8>, found: Seq<Found>)
    requires
        found.len() <= parents_of(path).len(),
        forall|k: int| 0 <= k < found.len() ==> #[trigger] found[k] == Found::Directory,
    ensures
        all_asked(path, found),
        reset_after(path, found) == (ResetPosition {
            dirs: parents_of(path).push(path),
            known: found.len(),
            stage: ResetStage::Inspect,
        }),
    decreases found.len(),
{
    if found.len() > 0 {
        let init = found.drop_last();
        assert forall|k: int| 0 <= k < init.len() implies #[trigger] init[k]
            == Found::Directory by {
            assert(init[k] == found[k]);
        }
        lemma_all_directories(path, init);
        assert(found[found.len() - 1] == Found::Directory);
    }
}

/// A submodule that is a directory is emptied, if all on the way to it are directories; anything
/// else that stands in its place or on the way to it is removed, and nothing is done where there
/// is nothing. `dirs` directories on the way are known, and `found` is what is at the next path.
pub proof fn law_reset_deals_with_what_is_found(path: Seq<u8>, dirs: Seq<Found>, found: Found)
    requires
        dirs.len() <= parents_of(path).len(),
        forall|k: int| 0 <= k < dirs.len() ==> #[trigger] dirs[k] == Found::Directory,
    ensures
        ({
            let way = parents_of(path).push(path);
            let next = way[dirs.len() as int];
            let q = reset_question(reset_after(path, dirs.push(found)));
            &&& reset_question(reset_after(path, dirs)) == ResetQuestion::Inspect(next)
            &&& all_asked(path, dirs.push(found))
            &&& found == Found::Nothing ==> q == ResetQuestion::Done
            &&& found == Found::Other ==> q == ResetQuestion::Remove(next)
            &&& found == Found::Directory && next != path ==> q == ResetQuestion::Inspect(
                way[dirs.len() as int + 1],
            )
            &&& found == Found::Directory && dirs.len() == parents_of(path).len() ==> q
                == ResetQuestion::Empty(path)
        }),
{
    lemma_all_directories(path, dirs);
    assert(dirs.push(found).drop_last() =~= dirs);
}

} // verus!
