//! Gitignore patterns, compiled and matched by the `ignore` crate.
use vstd::prelude::*;
use vstd::string::*;
use bstr::ByteSlice;
use ignore::gitignore::{Gitignore, GitignoreBuilder};
use crate::path::is_relative;
use crate::text::texts;

verus! {

/// `ignore::gitignore::GitignoreBuilder`, which collects the lines of a gitignore file.
#[verifier::external_type_specification]
#[verifier::external_body]
pub struct ExGitignoreBuilder(ignore::gitignore::GitignoreBuilder);

/// `ignore::gitignore::Gitignore`, the set of paths that gitignore patterns match.
#[verifier::external_type_specification]
#[verifier::external_body]
pub struct ExGitignore(ignore::gitignore::Gitignore);

/// `ignore::Error`, which patterns that cannot be compiled give.
#[verifier::external_type_specification]
#[verifier::external_body]
pub struct ExIgnoreError(ignore::Error);

/// The directory that a builder was made for.
pub uninterp spec fn builder_root(b: GitignoreBuilder) -> Seq<u8>;

/// The lines that a builder was given, in order.
pub uninterp spec fn builder_lines(b: GitignoreBuilder) -> Seq<Seq<char>>;

/// The relative paths that a matcher reports as ignored, each with whether it is a directory.
pub uninterp spec fn ignored_by(g: Gitignore) -> Set<(Seq<u8>, bool)>;

/// The relative paths that the lines of a gitignore file in a directory ignore, each with
/// whether it is a directory: a path is ignored where it or the nearest of its parents that some
/// line matches is, and not picked out again by a later line that begins with `!`. There is no
/// such set where the lines together are too much to compile.
pub uninterp spec fn gitignored(root: Seq<u8>, lines: Seq<Seq<char>>) -> Option<
    Set<(Seq<u8>, bool)>,
>;

/// Calls `GitignoreBuilder::new`: a builder for the directory `root`, without lines. `root` goes
/// there as a path, which on Unix keeps its bytes.
#[verifier::external_body]
fn new_builder(root: &[u8]) -> (b: GitignoreBuilder)
    ensures
        builder_root(b) == root@,
        builder_lines(b) == Seq::<Seq<char>>::empty(),
{
    GitignoreBuilder::new(root.to_path_lossy())
}

/// Calls `GitignoreBuilder::add_line`: adds a line. One that is no valid pattern is counted
/// among the lines, and matches nothing.
#[verifier::external_body]
fn add_line(b: &mut GitignoreBuilder, line: &str)
    ensures
        builder_root(*final(b)) == builder_root(*old(b)),
        builder_lines(*final(b)) == builder_lines(*old(b)).push(line@),
{
    let _ = b.add_line(None, line);
}

/// Calls `GitignoreBuilder::build`: the matcher of the lines so far, which matches nothing where
/// there is none.
#[verifier::external_body]
fn build(b: &GitignoreBuilder) -> (r: Result<Gitignore, ignore::Error>)
    ensures
        r is Ok <==> gitignored(builder_root(*b), builder_lines(*b)) is Some,
        r matches Ok(g) ==> gitignored(builder_root(*b), builder_lines(*b)) == Some(ignored_by(g)),
        builder_lines(*b).len() == 0 ==> r is Ok && ignored_by(r->Ok_0) =~= Set::empty(),
{
    b.build()
}

/// Calls `Gitignore::empty`: a matcher that never matches.
#[verifier::external_body]
fn empty_matcher() -> (g: Gitignore)
    ensures
        ignored_by(g) =~= Set::empty(),
{
    Gitignore::empty()
}

/// Calls `Gitignore::matched_path_or_any_parents`, and `Match::is_ignore` on what it returns:
/// whether the matcher reports the path as ignored. It panics where the path is not relative, or
/// has an empty component. The path goes there as a path, which on Unix keeps its bytes.
#[verifier::external_body]
pub(crate) fn is_ignored(g: &Gitignore, path: &[u8], is_dir: bool) -> (r: bool)
    requires
        is_relative(path@),
    ensures
        r == ignored_by(*g).contains((path@, is_dir)),
{
    g.matched_path_or_any_parents(path.to_path_lossy(), is_dir).is_ignore()
}

/// What the lines of a gitignore file in a directory ignore; nothing where they cannot be
/// compiled.
pub open spec fn ignored_in(root: Seq<u8>, lines: Seq<Seq<char>>) -> Set<(Seq<u8>, bool)> {
    match gitignored(root, lines) {
        Some(paths) => paths,
        None => Set::empty(),
    }
}

/// The matcher of the lines of a gitignore file in the directory `root`.
pub(crate) fn compile(root: &[u8], lines: &Vec<String>) -> (g: Gitignore)
    ensures
        ignored_by(g) == ignored_in(root@, texts(lines@)),
        lines@.len() == 0 ==> ignored_by(g) =~= Set::empty(),
{
    let ghost all = texts(lines@);
    let mut b: GitignoreBuilder = new_builder(root);
    let mut i: usize = 0;
    assert(all.take(0) =~= Seq::<Seq<char>>::empty());
    while i < lines.len()
        invariant
            i <= lines@.len(),
            all == texts(lines@),
            builder_root(b) == root@,
            builder_lines(b) == all.take(i as int),
        decreases lines@.len() - i,
    {
        add_line(&mut b, lines[i].as_str());
        assert(all.take(i + 1) =~= all.take(i as int).push(all[i as int]));
        i += 1;
    }
    assert(all.take(i as int) =~= all);
    match build(&b) {
        Ok(g) => g,
        Err(_) => empty_matcher(),
    }
}

} // verus!
