//! What is in a worktree: whether it is fresh, how it is made so again, and what differs in it.
use vstd::prelude::*;
use vstd::string::*;
use vstd::utf8::*;
use crate::bytes::{copy, same, views};
use crate::submodule::Found;

verus! {

/// `.git` is all a fresh worktree has.
pub open spec fn is_fresh(names: Seq<Seq<u8>>) -> bool {
    forall|i: int| 0 <= i < names.len() ==> #[trigger] names[i] == encode_utf8(".git"@)
}

/// The names of a worktree without `.git`.
pub open spec fn strange_names(names: Seq<Seq<u8>>) -> Seq<Seq<u8>>
    decreases names.len(),
{
    if names.len() == 0 {
        Seq::empty()
    } else {
        let others = strange_names(names.drop_last());
        if names.last() == encode_utf8(".git"@) {
            others
        } else {
            others.push(names.last())
        }
    }
}

fn is_git(name: &[u8]) -> (r: bool)
    ensures
        r == (name@ == encode_utf8(".git"@)),
{
    same(name, ".git".as_bytes())
}

/// Whether a worktree with these names in it is fresh. One that already has files is not to be
/// touched.
pub fn ensure_fresh(names: &Vec<Vec<u8>>) -> (r: bool)
    ensures
        r == is_fresh(views(names@)),
{
    let mut i: usize = 0;
    while i < names.len()
        invariant
            i <= names@.len(),
            forall|j: int| 0 <= j < i ==> (#[trigger] names@[j])@ == encode_utf8(".git"@),
        decreases names@.len() - i,
    {
        if !is_git(names[i].as_slice()) {
            assert(views(names@)[i as int] != encode_utf8(".git"@));
            return false;
        }
        i += 1;
    }
    true
}

/// What is removed from a worktree to make it fresh again: everything but `.git`.
pub fn reset_to_fresh(names: &Vec<Vec<u8>>) -> (r: Vec<Vec<u8>>)
    ensures
        views(r@) == strange_names(views(names@)),
{
    let mut r: Vec<Vec<u8>> = Vec::new();
    let ghost all = views(names@);
    let mut i: usize = 0;
    assert(views(r@) =~= strange_names(all.take(0)));
    while i < names.len()
        invariant
            i <= names@.len(),
            all == views(names@),
            views(r@) == strange_names(all.take(i as int)),
        decreases names@.len() - i,
    {
        assert(all.take(i + 1).drop_last() =~= all.take(i as int));
        assert(all.take(i + 1).last() == names@[i as int]@);
        if !is_git(names[i].as_slice()) {
            let ghost list = r@;
            let name: Vec<u8> = copy(names[i].as_slice());
            r.push(name);
            assert(views(r@) =~= views(list).push(name@));
        }
        i += 1;
    }
    assert(all.take(i as int) =~= all);
    r
}

/// What is removed to make a worktree fresh again is all that keeps it from being fresh, and
/// nothing else: nothing is removed from a fresh one.
pub proof fn law_reset_makes_fresh(names: Seq<Seq<u8>>, n: Seq<u8>)
    ensures
        strange_names(names).contains(n) <==> names.contains(n) && n != encode_utf8(".git"@),
        is_fresh(names) <==> strange_names(names).len() == 0,
{
    lemma_strange_names(names);
    if is_fresh(names) && strange_names(names).len() > 0 {
        let m = strange_names(names)[0];
        assert(strange_names(names).contains(m));
    }
    if strange_names(names).len() == 0 {
        assert forall|i: int| 0 <= i < names.len() implies #[trigger] names[i] == encode_utf8(
            ".git"@,
        ) by {
            assert(names.contains(names[i]));
            assert(!strange_names(names).contains(names[i]));
        }
    }
}

proof fn lemma_strange_names(names: Seq<Seq<u8>>)
    ensures
        forall|n: Seq<u8>| #[trigger]
            strange_names(names).contains(n) <==> names.contains(n) && n != encode_utf8(".git"@),
    decreases names.len(),
{
    if names.len() > 0 {
        let init = names.drop_last();
        lemma_strange_names(init);
        let others = strange_names(init);
        assert forall|n: Seq<u8>| #[trigger] strange_names(names).contains(n) <==> names.contains(
            n,
        ) && n != encode_utf8(".git"@) by {
            if names.contains(n) {
                let j = names.index_of(n);
                if j < init.len() {
                    assert(init[j] == n);
                }
            }
            if init.contains(n) {
                let j = init.index_of(n);
                assert(names[j] == n);
            }
            if others.contains(n) {
                let j = others.index_of(n);
                assert(others.push(names.last())[j] == n);
            }
            assert(others.push(names.last())[others.len() as int] == names.last());
        }
    }
}

/// How a path is removed, without following links.
#[derive(Clone, Copy, Debug, PartialEq, Eq, Structural)]
pub enum Removal {
    /// With all below it.
    Tree,
    /// As a file.
    File,
    /// There is nothing to remove.
    Nothing,
}

/// How a path is removed, without following links.
pub fn remove_path(found: Found) -> (r: Removal)
    ensures
        r == (match found {
            Found::Directory => Removal::Tree,
            Found::Other => Removal::File,
            Found::Nothing => Removal::Nothing,
        }),
{
    match found {
        Found::Directory => Removal::Tree,
        Found::Other => Removal::File,
        Found::Nothing => Removal::Nothing,
    }
}

/// How a file differs from the index.
pub struct FileDelta {
    /// It is there, and its content differs.
    pub modified: bool,
    pub path: Option<Vec<u8>>,
}

/// The paths of the files whose content differs.
pub open spec fn modified_paths(deltas: Seq<FileDelta>) -> Seq<Seq<u8>>
    decreases deltas.len(),
{
    if deltas.len() == 0 {
        Seq::empty()
    } else {
        let others = modified_paths(deltas.drop_last());
        match deltas.last().path {
            Some(p) => if deltas.last().modified {
                others.push(p@)
            } else {
                others
            },
            None => others,
        }
    }
}

/// The paths of the files whose content differs.
pub fn modified(deltas: &Vec<FileDelta>) -> (r: Vec<Vec<u8>>)
    ensures
        views(r@) == modified_paths(deltas@),
{
    let mut r: Vec<Vec<u8>> = Vec::new();
    let mut i: usize = 0;
    assert(views(r@) =~= modified_paths(deltas@.take(0)));
    while i < deltas.len()
        invariant
            i <= deltas@.len(),
            views(r@) == modified_paths(deltas@.take(i as int)),
        decreases deltas@.len() - i,
    {
        assert(deltas@.take(i + 1).drop_last() =~= deltas@.take(i as int));
        if let Some(p) = &deltas[i].path {
            if deltas[i].modified {
                let ghost list = r@;
                let path: Vec<u8> = copy(p.as_slice());
                r.push(path);
                assert(views(r@) =~= views(list).push(path@));
            }
        }
        i += 1;
    }
    assert(deltas@.take(i as int) =~= deltas@);
    r
}

/// What is removed from a worktree with some names in it and then others is what is removed for
/// the first and then what is removed for the others: no name is passed over.
pub proof fn law_all_names_are_looked_at(a: Seq<Seq<u8>>, n: Seq<u8>, b: Seq<Seq<u8>>)
    ensures
        strange_names(a + b) == strange_names(a) + strange_names(b),
        strange_names(seq![n]) == if n == encode_utf8(".git"@) {
            Seq::empty()
        } else {
            seq![n]
        },
        is_fresh(a + b) <==> is_fresh(a) && is_fresh(b),
    decreases b.len(),
{
    reveal_with_fuel(strange_names, 2);
    assert(seq![n].drop_last() =~= Seq::<Seq<u8>>::empty());
    assert(Seq::<Seq<u8>>::empty().push(n) =~= seq![n]);
    if b.len() == 0 {
        assert(a + b =~= a);
        assert(strange_names(a) + strange_names(b) =~= strange_names(a));
    } else {
        law_all_names_are_looked_at(a, n, b.drop_last());
        assert((a + b).drop_last() =~= a + b.drop_last());
        assert(strange_names(a + b) =~= strange_names(a) + strange_names(b));
    }
    if is_fresh(a + b) {
        assert forall|i: int| 0 <= i < a.len() implies #[trigger] a[i] == encode_utf8(
            ".git"@,
        ) by {
            assert((a + b)[i] == a[i]);
        }
        assert forall|i: int| 0 <= i < b.len() implies #[trigger] b[i] == encode_utf8(
            ".git"@,
        ) by {
            assert((a + b)[a.len() + i] == b[i]);
        }
    }
}

/// Every file whose content differs is listed by its path, in order, and no other.
pub proof fn law_all_modified_files_are_listed(
    a: Seq<FileDelta>,
    d: FileDelta,
    b: Seq<FileDelta>,
)
    ensures
        modified_paths(a + b) == modified_paths(a) + modified_paths(b),
        d.modified && d.path is Some ==> modified_paths(seq![d]) == seq![(d.path->0)@],
        !d.modified || d.path is None ==> modified_paths(seq![d]).len() == 0,
    decreases b.len(),
{
    reveal_with_fuel(modified_paths, 2);
    assert(seq![d].drop_last() =~= Seq::<FileDelta>::empty());
    if d.path is Some {
        assert(Seq::<Seq<u8>>::empty().push((d.path->0)@) =~= seq![(d.path->0)@]);
    }
    if b.len() == 0 {
        assert(a + b =~= a);
        assert(modified_paths(a) + modified_paths(b) =~= modified_paths(a));
    } else {
        law_all_modified_files_are_listed(a, d, b.drop_last());
        assert((a + b).drop_last() =~= a + b.drop_last());
        assert(modified_paths(a + b) =~= modified_paths(a) + modified_paths(b));
    }
}

} // verus!
