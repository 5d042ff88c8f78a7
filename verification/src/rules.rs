//! Which ignored paths are carried over.
//!
//! 1. never: sockets/fifos/devices, VCS metadata, tool state (`.worktrees`, ...), nested
//!    worktrees or repositories, and build state bound to its location (virtualenvs, CMake build
//!    dirs)
//! 2. `git config cow.exclude <gitignore pattern>` (multi-valued) excludes more
//! 3. with a `.worktreeinclude` (gitignore syntax) only matching paths are carried
//! 4. without it: everything except location-bound or live state (virtualenvs, devenv state,
//!    `tmp/`, `log/`, pid files); `git config cow.requireInclude true` carries nothing instead
use vstd::prelude::*;
use vstd::slice::slice_subrange;
use vstd::string::*;
use vstd::utf8::*;
use ignore::gitignore::Gitignore;
use crate::bytes::{copy, same, starts_with, views};
use crate::globs::{compile, ignored_by, ignored_in, is_ignored};
use crate::order::SEP;
use crate::path::is_relative;
use crate::text::{
    from_utf8, is_white_space, law_white_space_is_trimmed, lemma_lines_are_text, lines, lines_of,
    lossy, lossy_text, strip_leading, strip_marks, texts, trim, trim_end_of, trim_start_of,
    without_leading, without_marks,
};

verus! {

/// The name of the file that lists what is carried.
pub const INCLUDE_FILE: &'static str = ".worktreeinclude";

/// The name of the file that marks a Python virtualenv (under any name).
pub const PYVENV_CFG: &'static str = "pyvenv.cfg";

/// The name of the file that marks a CMake build directory.
pub const CMAKE_CACHE: &'static str = "CMakeCache.txt";

/// What a directory entry is.
#[derive(Clone, Copy, Debug, PartialEq, Eq, Structural)]
pub enum FileKind {
    Directory,
    File,
    Symlink,
    Socket,
    Fifo,
    BlockDevice,
    CharDevice,
    Other,
}

/// Which marker files of build state with absolute paths to its own location a directory holds:
/// a clone would keep building (or installing into) the source worktree.
#[derive(Clone, Copy, Debug, PartialEq, Eq, Structural)]
pub struct Markers {
    /// [`PYVENV_CFG`] is a file there.
    pub pyvenv_cfg: bool,
    /// [`CMAKE_CACHE`] is a file there.
    pub cmake_cache: bool,
}

/// What is known of an entry of a directory.
#[derive(Clone, Copy, Debug, PartialEq, Eq, Structural)]
pub struct ChildFacts {
    pub is_dir: bool,
    /// `.git` is a file in it.
    pub git_file: bool,
    pub markers: Markers,
}

/// What is known of a directory.
pub struct DirFacts {
    /// Anything named `.git` is in it.
    pub git: bool,
    /// Anything named `.git` is in it or below it, at any depth.
    pub checkouts: bool,
    pub markers: Markers,
    /// Its entries; none where it cannot be listed.
    pub children: Vec<ChildFacts>,
}

/// What is known of a directory.
pub struct Facts {
    pub git: bool,
    pub checkouts: bool,
    pub markers: Markers,
    pub children: Seq<ChildFacts>,
}

impl View for DirFacts {
    type V = Facts;

    open spec fn view(&self) -> Facts {
        Facts {
            git: self.git,
            checkouts: self.checkouts,
            markers: self.markers,
            children: self.children@,
        }
    }
}

/// Holds a marker file.
pub open spec fn is_marked(m: Markers) -> bool {
    m.pyvenv_cfg || m.cmake_cache
}

/// The directory or one of its direct subdirectories (`build/debug/`) holds a marker file.
pub open spec fn bound_to_location(facts: Facts) -> bool {
    is_marked(facts.markers) || exists|i: int|
        0 <= i < facts.children.len() && (#[trigger] facts.children[i]).is_dir && is_marked(
            facts.children[i].markers,
        )
}

/// A repository or worktree (`.git` inside), or a directory of worktrees as tools keep them
/// (`worktrees/<name>/.git`): cloning those would copy other checkouts.
pub open spec fn holds_worktrees(facts: Facts) -> bool {
    facts.git || exists|i: int|
        0 <= i < facts.children.len() && (#[trigger] facts.children[i]).git_file
}

/// Whether build state there is bound to its location.
pub fn is_location_bound(facts: &DirFacts) -> (r: bool)
    ensures
        r == bound_to_location(facts@),
{
    if facts.markers.pyvenv_cfg || facts.markers.cmake_cache {
        return true;
    }
    let mut i: usize = 0;
    while i < facts.children.len()
        invariant
            i <= facts.children@.len(),
            !is_marked(facts.markers),
            forall|j: int|
                0 <= j < i ==> !((#[trigger] facts.children@[j]).is_dir && is_marked(
                    facts.children@[j].markers,
                )),
        decreases facts.children@.len() - i,
    {
        let child: &ChildFacts = &facts.children[i];
        if child.is_dir && (child.markers.pyvenv_cfg || child.markers.cmake_cache) {
            assert(facts@.children[i as int].is_dir);
            return true;
        }
        i += 1;
    }
    false
}

/// Whether other checkouts are there.
pub fn contains_worktrees(facts: &DirFacts) -> (r: bool)
    ensures
        r == holds_worktrees(facts@),
{
    if facts.git {
        return true;
    }
    let mut i: usize = 0;
    while i < facts.children.len()
        invariant
            i <= facts.children@.len(),
            !facts.git,
            forall|j: int| 0 <= j < i ==> !(#[trigger] facts.children@[j]).git_file,
        decreases facts.children@.len() - i,
    {
        if facts.children[i].git_file {
            assert(facts@.children[i as int].git_file);
            return true;
        }
        i += 1;
    }
    false
}

/// The names of what is never carried, whatever `.worktreeinclude` says.
pub open spec fn never_names() -> Seq<Seq<char>> {
    seq![
        ".git"@,
        ".bzr"@,
        ".hg"@,
        ".jj"@,
        ".pijul"@,
        ".sl"@,
        ".svn"@,
        ".conductor"@,
        ".entire"@,
        ".worktrees"@,
    ]
}

/// A name of what is never carried.
pub open spec fn is_never_name(name: Seq<u8>) -> bool {
    exists|i: int| 0 <= i < never_names().len() && encode_utf8(#[trigger] never_names()[i]) == name
}

/// Whether what has this name is never carried.
pub fn is_never_carried(name: &[u8]) -> (r: bool)
    ensures
        r == is_never_name(name@),
{
    let ghost n = never_names();
    let r: bool = same(name, ".git".as_bytes()) || same(name, ".bzr".as_bytes()) || same(name, ".hg".as_bytes()) || same(
        name,
        ".jj".as_bytes(),
    ) || same(name, ".pijul".as_bytes()) || same(name, ".sl".as_bytes()) || same(
        name,
        ".svn".as_bytes(),
    ) || same(name, ".conductor".as_bytes()) || same(name, ".entire".as_bytes()) || same(
        name,
        ".worktrees".as_bytes(),
    );
    proof {
        assert(n[0] == ".git"@ && n[1] == ".bzr"@ && n[2] == ".hg"@ && n[3] == ".jj"@ && n[4]
            == ".pijul"@ && n[5] == ".sl"@ && n[6] == ".svn"@ && n[7] == ".conductor"@ && n[8]
            == ".entire"@ && n[9] == ".worktrees"@);
        if is_never_name(name@) {
            let i = choose|i: int| 0 <= i < n.len() && encode_utf8(#[trigger] n[i]) == name@;
            assert(i == 0 || i == 1 || i == 2 || i == 3 || i == 4 || i == 5 || i == 6 || i == 7 || i
                == 8 || i == 9);
        }
    }
    r
}

/// Sockets, fifos and devices.
pub open spec fn is_special(kind: FileKind) -> bool {
    kind == FileKind::Socket || kind == FileKind::Fifo || kind == FileKind::BlockDevice || kind
        == FileKind::CharDevice
}

/// The patterns of what is carried only when listed in `.worktreeinclude`: tied to its location
/// or live state.
pub open spec fn default_patterns() -> Seq<Seq<char>> {
    seq![
        ".venv/"@,
        "venv/"@,
        ".devenv/"@,
        ".direnv/"@,
        "tmp/"@,
        "log/"@,
        "*.pid"@,
        "*.sock"@,
    ]
}

fn default_excludes() -> (r: Vec<String>)
    ensures
        texts(r@) == default_patterns(),
{
    let mut r: Vec<String> = Vec::new();
    r.push(".venv/".to_owned());
    r.push("venv/".to_owned());
    r.push(".devenv/".to_owned());
    r.push(".direnv/".to_owned());
    r.push("tmp/".to_owned());
    r.push("log/".to_owned());
    r.push("*.pid".to_owned());
    r.push("*.sock".to_owned());
    assert(texts(r@) =~= default_patterns());
    r
}

/// A line that picks out what other lines match.
pub open spec fn is_negated(line: Seq<char>) -> bool {
    line.len() > 0 && line[0] == '!'
}

fn starts_with_bang(line: &String) -> (r: bool)
    ensures
        r == is_negated(line@),
{
    !line.as_str().is_empty() && line.as_str().get_char(0) == '!'
}

/// The lines of a gitignore file: those before the first that is no text, the first one without
/// a byte order mark.
pub open spec fn patterns_in(content: Seq<u8>) -> Seq<Seq<char>> {
    text_lines(lines_of(content), 0)
}

/// The lines from number `from` on, up to the first that is no text.
pub open spec fn text_lines(lines: Seq<Seq<u8>>, from: int) -> Seq<Seq<char>>
    decreases lines.len() - from,
{
    if from < 0 || from >= lines.len() || !valid_utf8(lines[from]) {
        Seq::empty()
    } else {
        seq![decode_utf8(if from == 0 { without_marks(lines[0]) } else { lines[from] })]
            + text_lines(lines, from + 1)
    }
}

/// A byte order mark before text leaves text.
proof fn lemma_without_marks(s: Seq<u8>)
    requires
        valid_utf8(s),
    ensures
        valid_utf8(without_marks(s)),
    decreases s.len(),
{
    if s.len() >= 3 && s[0] == 0xef && s[1] == 0xbb && s[2] == 0xbf {
        assert(pop_first_scalar(s) =~= s.skip(3));
        lemma_without_marks(s.skip(3));
    }
}

/// The lines of a gitignore file.
pub fn patterns(content: &[u8]) -> (r: Vec<String>)
    ensures
        texts(r@) == patterns_in(content@),
{
    let list: Vec<Vec<u8>> = lines(content);
    let ghost all = lines_of(content@);
    let mut r: Vec<String> = Vec::new();
    let mut i: usize = 0;
    assert(texts(r@) + text_lines(all, 0) =~= text_lines(all, 0));
    while i < list.len()
        invariant
            i <= list@.len(),
            all == views(list@),
            all == lines_of(content@),
            texts(r@) + text_lines(all, i as int) == text_lines(all, 0),
        decreases list@.len() - i,
    {
        let line: &[u8] = list[i].as_slice();
        let ghost done = texts(r@);
        assert(line@ == all[i as int]);
        if from_utf8(line).is_none() {
            assert(texts(r@) + text_lines(all, i as int) =~= texts(r@));
            return r;
        }
        let body: &[u8] = if i == 0 {
            strip_marks(line)
        } else {
            line
        };
        proof {
            lemma_without_marks(line@);
        }
        if let Some(text) = from_utf8(body) {
            let ghost t = text@;
            r.push(text.to_owned());
            proof {
                assert(texts(r@) =~= done.push(t));
                assert(texts(r@) + text_lines(all, i + 1) =~= done + text_lines(all, i as int));
            }
        }
        i += 1;
    }
    assert(texts(r@) + text_lines(all, i as int) =~= texts(r@));
    r
}

/// A line of `.worktreeinclude` as the start of a path: without white space around it and
/// without the separators that it begins with.
pub open spec fn include_path(line: Seq<u8>) -> Seq<u8> {
    without_leading(encode_utf8(trim_end_of(trim_start_of(decode_utf8(line)))), SEP)
}

/// A line that is neither empty nor a comment.
pub open spec fn is_include_path(path: Seq<u8>) -> bool {
    path.len() > 0 && path[0] != 0x23
}

/// The first `n` lines of `.worktreeinclude` as starts of paths.
pub open spec fn include_paths(lines: Seq<Seq<u8>>, n: int) -> Seq<Seq<u8>>
    decreases n,
{
    if n <= 0 {
        Seq::empty()
    } else {
        let done = include_paths(lines, n - 1);
        let path = include_path(lines[n - 1]);
        if is_include_path(path) {
            done.push(path)
        } else {
            done
        }
    }
}

/// The lines of `.worktreeinclude` as starts of paths, where it is text.
pub open spec fn included_paths(content: Seq<u8>) -> Seq<Seq<u8>> {
    if valid_utf8(content) {
        include_paths(lines_of(content), lines_of(content).len() as int)
    } else {
        Seq::empty()
    }
}

/// The lines of `.worktreeinclude` as starts of paths.
pub fn include_lines(content: &[u8]) -> (r: Vec<Vec<u8>>)
    ensures
        views(r@) == included_paths(content@),
{
    let mut r: Vec<Vec<u8>> = Vec::new();
    assert(views(r@) =~= Seq::<Seq<u8>>::empty());
    if from_utf8(content).is_none() {
        return r;
    }
    let list: Vec<Vec<u8>> = lines(content);
    let ghost all = lines_of(content@);
    proof {
        lemma_lines_are_text(content@);
    }
    let mut i: usize = 0;
    while i < list.len()
        invariant
            i <= list@.len(),
            all == views(list@),
            forall|j: int| 0 <= j < all.len() ==> valid_utf8(#[trigger] all[j]),
            views(r@) == include_paths(all, i as int),
        decreases list@.len() - i,
    {
        let ghost done = views(r@);
        let line: &[u8] = list[i].as_slice();
        assert(line@ == all[i as int]);
        if let Some(text) = from_utf8(line) {
            let path: &[u8] = strip_leading(trim(text).as_bytes(), SEP);
            assert(path@ == include_path(all[i as int]));
            if path.len() > 0 && path[0] != 0x23 {
                r.push(copy(path));
                assert(views(r@) =~= done.push(path@));
            }
        }
        i += 1;
    }
    r
}

/// The lines that say what is not carried by default, with those of `cow.exclude` that negate
/// them, and the other lines of `cow.exclude`.
pub fn split_excludes(user_lines: &Vec<String>) -> (r: (Vec<String>, Vec<String>))
    ensures
        texts(r.0@) == default_patterns() + texts(user_lines@).filter(
            |l: Seq<char>| is_negated(l),
        ),
        texts(r.1@) == texts(user_lines@).filter(|l: Seq<char>| !is_negated(l)),
{
    let ghost all = texts(user_lines@);
    let ghost negated = |l: Seq<char>| is_negated(l);
    let ghost plain = |l: Seq<char>| !is_negated(l);
    let mut defaults: Vec<String> = default_excludes();
    let mut user: Vec<String> = Vec::new();
    let mut i: usize = 0;
    proof {
        reveal(Seq::filter);
        assert(all.take(0) =~= Seq::<Seq<char>>::empty());
        assert(default_patterns() + all.take(0).filter(negated) =~= default_patterns());
        assert(texts(user@) =~= all.take(0).filter(plain));
    }
    while i < user_lines.len()
        invariant
            i <= user_lines@.len(),
            all == texts(user_lines@),
            negated == (|l: Seq<char>| is_negated(l)),
            plain == (|l: Seq<char>| !is_negated(l)),
            texts(defaults@) == default_patterns() + all.take(i as int).filter(negated),
            texts(user@) == all.take(i as int).filter(plain),
        decreases user_lines@.len() - i,
    {
        let ghost d0 = texts(defaults@);
        let ghost u0 = texts(user@);
        proof {
            reveal(Seq::filter);
            assert(all.take(i + 1).drop_last() =~= all.take(i as int));
        }
        if starts_with_bang(&user_lines[i]) {
            defaults.push(user_lines[i].clone());
            assert(texts(defaults@) =~= d0.push(all[i as int]));
        } else {
            user.push(user_lines[i].clone());
            assert(texts(user@) =~= u0.push(all[i as int]));
        }
        i += 1;
    }
    assert(all.take(i as int) =~= all);
    (defaults, user)
}

pub struct Rules {
    /// Gitignore-style matcher of `.worktreeinclude`, if the source has one.
    listed: Option<Gitignore>,
    /// Its patterns, to see whether one reaches below an ignored directory.
    include_lines: Vec<Vec<u8>>,
    /// Built-in default excludes; `cow.exclude` lines can negate them (`!tmp/`).
    defaults: Gitignore,
    /// `cow.exclude`.
    user: Gitignore,
    require_include: bool,
}

/// What the rules say. A set holds paths, each with whether it is a directory.
pub struct RuleSet {
    /// What `.worktreeinclude` matches, if the source has one.
    pub listed: Option<Set<(Seq<u8>, bool)>>,
    /// Its lines as starts of paths.
    pub include_lines: Seq<Seq<u8>>,
    /// What is not carried by default.
    pub defaults: Set<(Seq<u8>, bool)>,
    /// What `cow.exclude` matches.
    pub user: Set<(Seq<u8>, bool)>,
    pub require_include: bool,
}

impl View for Rules {
    type V = RuleSet;

    closed spec fn view(&self) -> RuleSet {
        RuleSet {
            listed: match self.listed {
                Some(g) => Some(ignored_by(g)),
                None => None,
            },
            include_lines: views(self.include_lines@),
            defaults: ignored_by(self.defaults),
            user: ignored_by(self.user),
            require_include: self.require_include,
        }
    }
}

/// The rules of a worktree at `source`: `user` holds the values of `cow.exclude`, `listed` the
/// content of `.worktreeinclude` if it is a file, and `require` the value of
/// `cow.requireInclude`.
pub open spec fn rules_of(
    source: Seq<u8>,
    user: Seq<Seq<char>>,
    listed: Option<Seq<u8>>,
    require: Option<bool>,
) -> RuleSet {
    RuleSet {
        listed: match listed {
            Some(content) => Some(ignored_in(source, patterns_in(content))),
            None => None,
        },
        include_lines: match listed {
            Some(content) => included_paths(content),
            None => Seq::empty(),
        },
        defaults: ignored_in(
            source,
            default_patterns() + user.filter(|l: Seq<char>| is_negated(l)),
        ),
        user: ignored_in(source, user.filter(|l: Seq<char>| !is_negated(l))),
        require_include: require == Some(true),
    }
}

/// What happens to an ignored path.
#[derive(Clone, Copy, Debug, PartialEq, Eq, Structural)]
pub enum Decision {
    Carry,
    /// Left behind on purpose (reported).
    Exclude,
    /// Not selected by `.worktreeinclude` / `cow.requireInclude` (not reported).
    Skip,
    /// Walk into the directory, deciding for its entries.
    Descend,
}

/// A byte that does not stand for itself in a pattern: `*`, `?`, `[` or a backslash.
pub open spec fn is_wild(b: u8) -> bool {
    b == 0x2a || b == 0x3f || b == 0x5b || b == 0x5c
}

/// How many bytes of a pattern stand for themselves before the first that does not.
pub open spec fn literal_length(line: Seq<u8>) -> nat
    decreases line.len(),
{
    if line.len() == 0 || is_wild(line[0]) {
        0
    } else {
        1 + literal_length(line.drop_first())
    }
}

/// How long the first component of a path or pattern is.
pub open spec fn head_length(s: Seq<u8>) -> nat
    decreases s.len(),
{
    if s.len() == 0 || s[0] == SEP {
        0
    } else {
        1 + head_length(s.drop_first())
    }
}

/// The component `name` is, or may be, one that the component `pattern` stands for: they are the
/// same, or `name` begins with what stands before the first wildcard.
pub open spec fn may_stand_for(pattern: Seq<u8>, name: Seq<u8>) -> bool {
    let k = literal_length(pattern) as int;
    if k == pattern.len() {
        pattern == name
    } else {
        pattern.take(k).is_prefix_of(name)
    }
}

/// A pattern from the root on names something below `dir`, or may: component by component it may
/// stand for `dir`, and it has more of them. Only `**` stands for several components.
pub open spec fn may_go_through(line: Seq<u8>, dir: Seq<u8>) -> bool
    decreases line.len(),
{
    let k = head_length(line) as int;
    let n = head_length(dir) as int;
    let head = line.take(k);
    if k + 1 >= line.len() {
        // no component comes after this one
        false
    } else if head == encode_utf8("**"@) {
        true
    } else if !may_stand_for(head, dir.take(n)) {
        false
    } else if n == dir.len() {
        true
    } else {
        may_go_through(line.skip(k + 1), dir.skip(n + 1))
    }
}

/// The pattern names something below `dir`, or may: it begins with `dir` and a separator,
/// matches at any depth, or has wildcards that may stand for components of `dir`.
///
/// A line without a separator inside (`dev/`) matches at any depth too, but is not looked for in
/// ignored directories: each such line, and `node_modules/` is the commonest, would have all
/// ignored trees walked, which are to cost one clone call each. `**/dev/` asks for that.
pub open spec fn line_reaches_into(line: Seq<u8>, dir: Seq<u8>) -> bool {
    ||| dir.push(SEP).is_prefix_of(line)
    ||| encode_utf8("**/"@).is_prefix_of(line)
    ||| may_go_through(line, dir)
}

/// One of the lines names something below `dir`, or may.
pub open spec fn some_reaches_into(lines: Seq<Seq<u8>>, dir: Seq<u8>) -> bool {
    exists|i: int| 0 <= i < lines.len() && line_reaches_into(#[trigger] lines[i], dir)
}

/// A line of `.worktreeinclude` names something below `dir`, or may.
pub open spec fn reaches_into(lines: Seq<Seq<u8>>, dir: Seq<u8>) -> bool {
    some_reaches_into(lines, encode_utf8(lossy_text(dir)))
}

/// Whether what is known of a directory can matter to the decision on an ignored path.
pub open spec fn facts_matter(name: Seq<u8>, kind: FileKind) -> bool {
    kind == FileKind::Directory && !is_never_name(name)
}

/// What is never carried: special files, some names, and directories that hold other checkouts
/// or state bound to its location.
pub open spec fn is_never(name: Seq<u8>, kind: FileKind, facts: Facts) -> bool {
    ||| is_special(kind)
    ||| is_never_name(name)
    ||| kind == FileKind::Directory && (holds_worktrees(facts) || bound_to_location(facts))
}

/// What the patterns say of an ignored path.
#[derive(Clone, Copy, Debug, PartialEq, Eq, Structural)]
pub struct Matches {
    /// `cow.exclude` matches it.
    pub user: bool,
    /// Whether `.worktreeinclude` matches it, if there is one.
    pub listed: Option<bool>,
    /// A line of `.worktreeinclude` may name something below it.
    pub reached_into: bool,
    /// It is not carried by default.
    pub defaults: bool,
    /// Nothing is carried without `.worktreeinclude`.
    pub require_include: bool,
}

/// How something is carried: a directory with other checkouts somewhere below it is walked, so
/// that they are left behind.
pub open spec fn carrying(has_checkouts: bool) -> Decision {
    if has_checkouts {
        Decision::Descend
    } else {
        Decision::Carry
    }
}

/// What is decided on an ignored path of which the patterns say `m`. What is never carried and
/// what `cow.exclude` matches is excluded; then `.worktreeinclude` decides, if there is one;
/// then the defaults. `has_checkouts`: it is a directory with other checkouts below it.
pub open spec fn decision_on(
    never: bool,
    is_dir: bool,
    has_checkouts: bool,
    m: Matches,
) -> Decision {
    if never || m.user {
        Decision::Exclude
    } else {
        match m.listed {
            Some(matched) => if matched {
                carrying(has_checkouts)
            } else if is_dir && m.reached_into {
                Decision::Descend
            } else {
                Decision::Skip
            },
            None => if m.require_include {
                Decision::Skip
            } else if m.defaults {
                Decision::Exclude
            } else {
                carrying(has_checkouts)
            },
        }
    }
}

/// What the rules say of a path.
pub open spec fn matches_of(rules: RuleSet, path: Seq<u8>, is_dir: bool) -> Matches {
    Matches {
        user: rules.user.contains((path, is_dir)),
        listed: match rules.listed {
            Some(listed) => Some(listed.contains((path, is_dir))),
            None => None,
        },
        reached_into: reaches_into(rules.include_lines, path),
        defaults: rules.defaults.contains((path, is_dir)),
        require_include: rules.require_include,
    }
}

/// What the rules decide on the ignored path `path`, whose last component is `name`.
pub open spec fn decision(
    rules: RuleSet,
    path: Seq<u8>,
    name: Seq<u8>,
    kind: FileKind,
    facts: Facts,
) -> Decision {
    let is_dir = kind == FileKind::Directory;
    decision_on(
        is_never(name, kind, facts),
        is_dir,
        is_dir && facts.checkouts,
        matches_of(rules, path, is_dir),
    )
}

/// What is decided on an ignored path with the name `name`, of which the patterns say `m`.
pub fn decide_on(name: &[u8], kind: FileKind, facts: &DirFacts, m: &Matches) -> (r: Decision)
    ensures
        r == decision_on(
            is_never(name@, kind, facts@),
            kind == FileKind::Directory,
            kind == FileKind::Directory && facts@.checkouts,
            *m,
        ),
{
    let is_dir: bool = kind == FileKind::Directory;
    let carrying: Decision = if is_dir && facts.checkouts {
        Decision::Descend
    } else {
        Decision::Carry
    };
    if kind == FileKind::Socket || kind == FileKind::Fifo || kind == FileKind::BlockDevice || kind
        == FileKind::CharDevice || is_never_carried(name) || (is_dir && (contains_worktrees(facts)
        || is_location_bound(facts))) || m.user {
        return Decision::Exclude;
    }
    if let Some(matched) = m.listed {
        return if matched {
            carrying
        } else if is_dir && m.reached_into {
            Decision::Descend
        } else {
            Decision::Skip
        };
    }
    if m.require_include {
        Decision::Skip
    } else if m.defaults {
        Decision::Exclude
    } else {
        carrying
    }
}

/// Where the first byte of a pattern is that does not stand for itself.
fn first_wild(line: &[u8]) -> (r: usize)
    ensures
        r == literal_length(line@),
        r <= line@.len(),
{
    let mut i: usize = 0;
    assert(line@.skip(0) =~= line@);
    while i < line.len()
        invariant
            i <= line@.len(),
            literal_length(line@) == i + literal_length(line@.skip(i as int)),
        decreases line@.len() - i,
    {
        let b: u8 = line[i];
        assert(line@.skip(i as int)[0] == b);
        if b == 0x2a || b == 0x3f || b == 0x5b || b == 0x5c {
            return i;
        }
        assert(line@.skip(i as int).drop_first() =~= line@.skip(i + 1));
        i += 1;
    }
    i
}

/// How long the first component of a path or pattern is.
fn first_component(s: &[u8]) -> (r: usize)
    ensures
        r == head_length(s@),
        r <= s@.len(),
        r < s@.len() ==> s@[r as int] == SEP,
{
    let mut i: usize = 0;
    assert(s@.skip(0) =~= s@);
    while i < s.len()
        invariant
            i <= s@.len(),
            head_length(s@) == i + head_length(s@.skip(i as int)),
        decreases s@.len() - i,
    {
        assert(s@.skip(i as int)[0] == s@[i as int]);
        if s[i] == SEP {
            return i;
        }
        assert(s@.skip(i as int).drop_first() =~= s@.skip(i + 1));
        i += 1;
    }
    i
}

/// Whether the component `name` is, or may be, one that the component `pattern` stands for.
fn component_matches(pattern: &[u8], name: &[u8]) -> (r: bool)
    ensures
        r == may_stand_for(pattern@, name@),
{
    let k: usize = first_wild(pattern);
    if k == pattern.len() {
        same(pattern, name)
    } else {
        let literal: &[u8] = slice_subrange(pattern, 0, k);
        assert(literal@ =~= pattern@.take(k as int));
        starts_with(name, literal)
    }
}

/// Whether a pattern from the root on names something below a directory, or may.
fn goes_through(line: &[u8], dir: &[u8]) -> (r: bool)
    ensures
        r == may_go_through(line@, dir@),
    decreases line@.len(),
{
    let k: usize = first_component(line);
    let n: usize = first_component(dir);
    if k >= line.len() || k == line.len() - 1 {
        return false;
    }
    let head: &[u8] = slice_subrange(line, 0, k);
    assert(head@ =~= line@.take(k as int));
    if same(head, "**".as_bytes()) {
        return true;
    }
    let name: &[u8] = slice_subrange(dir, 0, n);
    assert(name@ =~= dir@.take(n as int));
    if !component_matches(head, name) {
        return false;
    }
    if n == dir.len() {
        return true;
    }
    let rest: &[u8] = slice_subrange(line, k + 1, line.len());
    let below: &[u8] = slice_subrange(dir, n + 1, dir.len());
    assert(rest@ =~= line@.skip(k + 1));
    assert(below@ =~= dir@.skip(n + 1));
    goes_through(rest, below)
}

/// Whether a pattern names something below a directory, whose path and a separator are
/// `prefix`, or may.
fn reaches_below(line: &[u8], dir: &[u8], prefix: &[u8]) -> (r: bool)
    requires
        prefix@ == dir@.push(SEP),
    ensures
        r == line_reaches_into(line@, dir@),
{
    starts_with(line, prefix) || starts_with(line, "**/".as_bytes()) || goes_through(line, dir)
}

/// Whether one of `lines` names something below a directory whose path is written as `dir`, or
/// may.
pub fn any_reaches_into(lines: &Vec<Vec<u8>>, dir: &str) -> (r: bool)
    ensures
        r == some_reaches_into(views(lines@), encode_utf8(dir@)),
{
    let mut prefix: Vec<u8> = copy(dir.as_bytes());
    prefix.push(SEP);
    let ghost all = views(lines@);
    let mut i: usize = 0;
    while i < lines.len()
        invariant
            i <= lines@.len(),
            all == views(lines@),
            prefix@ == encode_utf8(dir@).push(SEP),
            forall|j: int|
                0 <= j < i ==> !line_reaches_into(#[trigger] all[j], encode_utf8(dir@)),
        decreases lines@.len() - i,
    {
        assert(all[i as int] == lines@[i as int]@);
        if reaches_below(lines[i].as_slice(), dir.as_bytes(), prefix.as_slice()) {
            return true;
        }
        i += 1;
    }
    false
}

impl Rules {
    /// The rules of the worktree at `source`.
    pub fn load(
        source: &[u8],
        user_lines: &Vec<String>,
        include_file: Option<&[u8]>,
        require_include: Option<bool>,
    ) -> (r: Rules)
        ensures
            r@ == rules_of(
                source@,
                texts(user_lines@),
                match include_file {
                    Some(content) => Some(content@),
                    None => None,
                },
                require_include,
            ),
    {
        let (defaults, user): (Vec<String>, Vec<String>) = split_excludes(user_lines);
        Rules {
            listed: match include_file {
                Some(content) => Some(compile(source, &patterns(content))),
                None => None,
            },
            include_lines: match include_file {
                Some(content) => include_lines(content),
                None => {
                    let none: Vec<Vec<u8>> = Vec::new();
                    assert(views(none@) =~= Seq::<Seq<u8>>::empty());
                    none
                },
            },
            defaults: compile(source, &defaults),
            user: compile(source, &user),
            require_include: match require_include {
                Some(b) => b,
                None => false,
            },
        }
    }

    /// What happens to the ignored path `path`, whose last component is `name`.
    pub fn decide(&self, path: &[u8], name: &[u8], kind: FileKind, facts: &DirFacts) -> (r: Decision)
        requires
            is_relative(path@),
        ensures
            r == decision(self@, path@, name@, kind, facts@),
    {
        let is_dir: bool = kind == FileKind::Directory;
        let m = Matches {
            user: is_ignored(&self.user, path, is_dir),
            listed: match &self.listed {
                Some(listed) => Some(is_ignored(listed, path, is_dir)),
                None => None,
            },
            reached_into: self.include_reaches_into(path),
            defaults: is_ignored(&self.defaults, path, is_dir),
            require_include: self.require_include,
        };
        decide_on(name, kind, facts, &m)
    }

    /// Whether a `.worktreeinclude` pattern names something below `dir` (e.g. `target/debug/`
    /// while only `target/` is the ignored entry), so the directory has to be walked instead of
    /// skipped.
    pub fn include_reaches_into(&self, dir: &[u8]) -> (r: bool)
        ensures
            r == reaches_into(self@.include_lines, dir@),
    {
        any_reaches_into(&self.include_lines, lossy(dir).as_str())
    }
}

/// What is never carried is left behind on purpose, and so is what `cow.exclude` matches,
/// whatever `.worktreeinclude` says.
pub proof fn law_never_carried(
    rules: RuleSet,
    path: Seq<u8>,
    name: Seq<u8>,
    kind: FileKind,
    facts: Facts,
)
    requires
        is_never(name, kind, facts) || rules.user.contains((path, kind == FileKind::Directory)),
    ensures
        decision(rules, path, name, kind, facts) == Decision::Exclude,
{
}

/// A directory with other checkouts below it, at any depth, is never carried as a whole.
pub proof fn law_checkouts_are_not_carried_along(
    rules: RuleSet,
    path: Seq<u8>,
    name: Seq<u8>,
    kind: FileKind,
    facts: Facts,
)
    requires
        kind == FileKind::Directory,
        facts.checkouts,
    ensures
        decision(rules, path, name, kind, facts) != Decision::Carry,
{
}

/// With `.worktreeinclude`, what is not carried by default and whether a list is required do not
/// matter.
pub proof fn law_list_overrides_defaults(
    a: RuleSet,
    b: RuleSet,
    path: Seq<u8>,
    name: Seq<u8>,
    kind: FileKind,
    facts: Facts,
)
    requires
        a.listed is Some,
        a.listed == b.listed,
        a.include_lines == b.include_lines,
        a.user == b.user,
    ensures
        decision(a, path, name, kind, facts) == decision(b, path, name, kind, facts),
{
}

/// Without `.worktreeinclude`, an ignored path is either carried, left behind on purpose, or, if
/// a list is required, left behind; it is looked into only if other checkouts lie below it.
pub proof fn law_nothing_is_looked_into_without_a_list(
    rules: RuleSet,
    path: Seq<u8>,
    name: Seq<u8>,
    kind: FileKind,
    facts: Facts,
)
    requires
        rules.listed is None,
    ensures
        decision(rules, path, name, kind, facts) == Decision::Descend ==> kind
            == FileKind::Directory && facts.checkouts,
        rules.require_include ==> decision(rules, path, name, kind, facts) != Decision::Carry,
        !rules.require_include ==> decision(rules, path, name, kind, facts) != Decision::Skip,
{
}

proof fn lemma_text_lines(lines: Seq<Seq<u8>>, from: int, n: int)
    requires
        0 <= from <= n <= lines.len(),
        forall|i: int| from <= i < n ==> valid_utf8(#[trigger] lines[i]),
        n < lines.len() ==> !valid_utf8(lines[n]),
    ensures
        text_lines(lines, from).len() == n - from,
        forall|i: int|
            from <= i < n ==> #[trigger] text_lines(lines, from)[i - from] == decode_utf8(
                if i == 0 {
                    without_marks(lines[0])
                } else {
                    lines[i]
                },
            ),
    decreases n - from,
{
    if from < n {
        lemma_text_lines(lines, from + 1, n);
        let rest = text_lines(lines, from + 1);
        assert forall|i: int| from <= i < n implies #[trigger] text_lines(lines, from)[i - from]
            == decode_utf8(
            if i == 0 {
                without_marks(lines[0])
            } else {
                lines[i]
            },
        ) by {
            if i > from {
                assert(text_lines(lines, from)[i - from] == rest[i - (from + 1)]);
            }
        }
    }
}

/// Every line of a gitignore file is a pattern, in order, empty ones and comments too, up to the
/// first that is no text: there are `n` before that one, or in all. A byte order mark is no part
/// of the first.
pub proof fn law_every_line_is_a_pattern(content: Seq<u8>, n: int, i: int)
    requires
        0 <= n <= lines_of(content).len(),
        forall|k: int| 0 <= k < n ==> valid_utf8(#[trigger] lines_of(content)[k]),
        n < lines_of(content).len() ==> !valid_utf8(lines_of(content)[n]),
    ensures
        patterns_in(content).len() == n,
        0 < i < n ==> patterns_in(content)[i] == decode_utf8(lines_of(content)[i]),
        n > 0 ==> patterns_in(content)[0] == decode_utf8(without_marks(lines_of(content)[0])),
{
    lemma_text_lines(lines_of(content), 0, n);
    if 0 < i < n {
        assert(patterns_in(content)[i - 0] == decode_utf8(lines_of(content)[i]));
    }
    if n > 0 {
        assert(patterns_in(content)[0 - 0] == decode_utf8(without_marks(lines_of(content)[0])));
    }
}

/// Text is all patterns.
pub proof fn law_text_is_all_patterns(content: Seq<u8>)
    requires
        valid_utf8(content),
    ensures
        patterns_in(content).len() == lines_of(content).len(),
{
    lemma_lines_are_text(content);
    law_every_line_is_a_pattern(content, lines_of(content).len() as int, 0);
}

proof fn lemma_include_paths(lines: Seq<Seq<u8>>, n: int, i: int, path: Seq<u8>)
    requires
        0 <= n <= lines.len(),
    ensures
        0 <= i < n && include_path(lines[i]).len() > 0 && include_path(lines[i])[0] != 0x23
            ==> include_paths(lines, n).contains(include_path(lines[i])),
        include_paths(lines, n).contains(path) ==> path.len() > 0 && path[0] != 0x23 && exists|
            k: int,
        |
            0 <= k < n && include_path(#[trigger] lines[k]) == path,
    decreases n,
{
    if n > 0 {
        lemma_include_paths(lines, n - 1, i, path);
        let done = include_paths(lines, n - 1);
        let all = include_paths(lines, n);
        if 0 <= i < n && include_path(lines[i]).len() > 0 && include_path(lines[i])[0] != 0x23 {
            if i < n - 1 {
                let k = done.index_of(include_path(lines[i]));
                assert(all[k] == done[k]);
            } else {
                assert(all[done.len() as int] == include_path(lines[i]));
            }
        }
        if all.contains(path) {
            let m = all.index_of(path);
            if m < done.len() {
                assert(done[m] == path);
                let k = choose|k: int| 0 <= k < n - 1 && include_path(#[trigger] lines[k]) == path;
                assert(0 <= k < n && include_path(lines[k]) == path);
            } else {
                assert(include_path(lines[n - 1]) == path);
            }
        }
    }
}

/// Every line of `.worktreeinclude` that is neither empty nor a comment is looked at to see what
/// it may name below a directory, and no other.
pub proof fn law_every_include_line_counts(content: Seq<u8>, i: int, path: Seq<u8>)
    requires
        valid_utf8(content),
    ensures
        0 <= i < lines_of(content).len() && include_path(lines_of(content)[i]).len() > 0
            && include_path(lines_of(content)[i])[0] != 0x23 ==> included_paths(content).contains(
            include_path(lines_of(content)[i]),
        ),
        included_paths(content).contains(path) ==> path.len() > 0 && path[0] != 0x23 && exists|
            k: int,
        |
            0 <= k < lines_of(content).len() && include_path(#[trigger] lines_of(content)[k])
                == path,
{
    lemma_include_paths(lines_of(content), lines_of(content).len() as int, i, path);
}

/// White space around a line and separators before it do not matter.
pub proof fn law_include_line_is_trimmed(a: Seq<char>, text: Seq<char>, b: Seq<char>)
    requires
        forall|i: int| 0 <= i < a.len() ==> is_white_space(#[trigger] a[i]),
        forall|i: int| 0 <= i < b.len() ==> is_white_space(#[trigger] b[i]),
        text.len() > 0 ==> !is_white_space(text[0]) && !is_white_space(text.last()),
    ensures
        include_path(encode_utf8(a + text + b)) == without_leading(encode_utf8(text), 0x2f),
{
    law_white_space_is_trimmed(a, text, b);
    encode_utf8_decode_utf8(a + text + b);
}

/// A line is negated exactly if it begins with an exclamation mark.
pub proof fn law_negation_begins_with_a_mark(rest: Seq<char>, line: Seq<char>)
    ensures
        is_negated(seq!['!'] + rest),
        is_negated(line) ==> line == seq!['!'] + line.skip(1),
{
    assert((seq!['!'] + rest)[0] == '!');
    if is_negated(line) {
        assert(line =~= seq!['!'] + line.skip(1));
    }
}

/// A negated line of `cow.exclude` only picks out of what is not carried by default, behind the
/// other such lines, and any other line only adds to what is never carried.
pub proof fn law_excludes_are_told_apart(
    source: Seq<u8>,
    user: Seq<Seq<char>>,
    line: Seq<char>,
    listed: Option<Seq<u8>>,
    require: Option<bool>,
)
    ensures
        ({
            let a = rules_of(source, user, listed, require);
            let b = rules_of(source, user.push(line), listed, require);
            let negated = user.filter(|l: Seq<char>| is_negated(l));
            let plain = user.filter(|l: Seq<char>| !is_negated(l));
            &&& line.len() > 0 && line[0] == '!' ==> b.user == a.user && b.defaults == ignored_in(
                source,
                default_patterns() + negated.push(line),
            )
            &&& line.len() == 0 || line[0] != '!' ==> b.defaults == a.defaults && b.user
                == ignored_in(source, plain.push(line))
            &&& b.listed == a.listed
            &&& b.include_lines == a.include_lines
            &&& b.require_include == a.require_include
            &&& a.require_include == (require == Some(true))
            &&& a.listed is Some <==> listed is Some
        }),
{
    reveal(Seq::filter);
    assert(user.push(line).drop_last() =~= user);
}

/// Without lines of `cow.exclude` nothing is excluded by them, and what is not carried by default
/// is what the built-in patterns match.
pub proof fn law_rules_without_excludes(
    source: Seq<u8>,
    content: Seq<u8>,
    require: Option<bool>,
)
    ensures
        ({
            let a = rules_of(source, Seq::empty(), Some(content), require);
            &&& a.user == ignored_in(source, Seq::empty())
            &&& a.defaults == ignored_in(source, default_patterns())
            &&& a.listed == Some(ignored_in(source, patterns_in(content)))
            &&& a.include_lines == included_paths(content)
        }),
{
    reveal(Seq::filter);
    let none = Seq::<Seq<char>>::empty();
    assert(none.filter(|l: Seq<char>| is_negated(l)) =~= none);
    assert(none.filter(|l: Seq<char>| !is_negated(l)) =~= none);
    assert(default_patterns() + none =~= default_patterns());
}

/// What is left behind for what it is: sockets, fifos and devices; directories with `.git` or a
/// marker file in them; and those with a directory in them, by its number, that has a `.git` file
/// or a marker file.
pub proof fn law_left_behind_for_what_it_is(
    rules: RuleSet,
    path: Seq<u8>,
    name: Seq<u8>,
    kind: FileKind,
    facts: Facts,
    i: int,
)
    requires
        ({
            let child = facts.children[i];
            let there = 0 <= i < facts.children.len();
            ||| kind == FileKind::Socket
            ||| kind == FileKind::Fifo
            ||| kind == FileKind::BlockDevice
            ||| kind == FileKind::CharDevice
            ||| kind == FileKind::Directory && {
                ||| facts.git
                ||| facts.markers.pyvenv_cfg
                ||| facts.markers.cmake_cache
                ||| there && child.git_file
                ||| there && child.is_dir && (child.markers.pyvenv_cfg
                    || child.markers.cmake_cache)
            }
        }),
    ensures
        decision(rules, path, name, kind, facts) == Decision::Exclude,
{
}

/// What is not left behind for what it is, for its name or for `cow.exclude` is decided by
/// `.worktreeinclude`, if there is one: carried if it matches, walked if it is a directory that a
/// line reaches into, and otherwise not selected. Without one it is carried, unless a list is
/// required or it is excluded by default.
pub proof fn law_lists_decide_on_the_rest(
    rules: RuleSet,
    path: Seq<u8>,
    name: Seq<u8>,
    kind: FileKind,
    facts: Facts,
)
    requires
        kind == FileKind::Directory || kind == FileKind::File || kind == FileKind::Symlink || kind
            == FileKind::Other,
        !is_never_name(name),
        kind == FileKind::Directory ==> {
            &&& !facts.git
            &&& !facts.checkouts
            &&& !facts.markers.pyvenv_cfg
            &&& !facts.markers.cmake_cache
            &&& forall|i: int|
                0 <= i < facts.children.len() ==> {
                    let child = #[trigger] facts.children[i];
                    !child.git_file && (child.is_dir ==> !child.markers.pyvenv_cfg
                        && !child.markers.cmake_cache)
                }
        },
        !rules.user.contains((path, kind == FileKind::Directory)),
    ensures
        ({
            let is_dir = kind == FileKind::Directory;
            let d = decision(rules, path, name, kind, facts);
            match rules.listed {
                Some(listed) => {
                    &&& listed.contains((path, is_dir)) ==> d == Decision::Carry
                    &&& !listed.contains((path, is_dir)) && is_dir && reaches_into(
                        rules.include_lines,
                        path,
                    ) ==> d == Decision::Descend
                    &&& !listed.contains((path, is_dir)) && !(is_dir && reaches_into(
                        rules.include_lines,
                        path,
                    )) ==> d == Decision::Skip
                },
                None => {
                    &&& rules.require_include ==> d == Decision::Skip
                    &&& !rules.require_include && rules.defaults.contains((path, is_dir)) ==> d
                        == Decision::Exclude
                    &&& !rules.require_include && !rules.defaults.contains((path, is_dir)) ==> d
                        == Decision::Carry
                },
            }
        }),
{
}

proof fn lemma_head_length(s: Seq<u8>)
    ensures
        head_length(s) <= s.len(),
        forall|i: int| 0 <= i < head_length(s) ==> s[i] != SEP,
        head_length(s) < s.len() ==> s[head_length(s) as int] == SEP,
    decreases s.len(),
{
    if s.len() > 0 && s[0] != SEP {
        lemma_head_length(s.drop_first());
        assert forall|i: int| 0 <= i < head_length(s) implies s[i] != SEP by {
            if i > 0 {
                assert(s[i] == s.drop_first()[i - 1]);
            }
        }
    }
}

proof fn lemma_literal_length(s: Seq<u8>)
    ensures
        literal_length(s) <= s.len(),
        forall|i: int| 0 <= i < literal_length(s) ==> !is_wild(#[trigger] s[i]),
        literal_length(s) < s.len() ==> is_wild(s[literal_length(s) as int]),
    decreases s.len(),
{
    if s.len() > 0 && !is_wild(s[0]) {
        lemma_literal_length(s.drop_first());
        assert forall|i: int| 0 <= i < literal_length(s) implies !is_wild(#[trigger] s[i]) by {
            if i > 0 {
                assert(s[i] == s.drop_first()[i - 1]);
            }
        }
    }
}

/// A line that begins with the path of a directory and a separator names something below it, and
/// so does one that matches at any depth.
pub proof fn law_paths_and_double_stars_reach(dir: Seq<u8>, rest: Seq<u8>)
    ensures
        line_reaches_into(dir + seq![0x2fu8] + rest, dir),
        line_reaches_into(encode_utf8("**/"@) + rest, dir),
{
    let line = dir + seq![0x2fu8] + rest;
    assert(line.subrange(0, dir.len() as int + 1) =~= dir.push(SEP));
    let deep = encode_utf8("**/"@) + rest;
    assert(deep.subrange(0, encode_utf8("**/"@).len() as int) =~= encode_utf8("**/"@));
}

/// A line with a wildcard reaches into a directory whose name begins with what stands before the
/// wildcard, if more follows behind a separator.
pub proof fn law_wildcards_reach(
    literal: Seq<u8>,
    wild: u8,
    more: Seq<u8>,
    rest: Seq<u8>,
    tail: Seq<u8>,
)
    requires
        forall|i: int| 0 <= i < literal.len() ==> !is_wild(#[trigger] literal[i]) && literal[i]
            != SEP,
        wild == 0x2a || wild == 0x3f || wild == 0x5b || wild == 0x5c,
        !more.contains(SEP),
        rest.len() > 0,
        !tail.contains(SEP),
    ensures
        line_reaches_into(literal.push(wild) + more + seq![0x2fu8] + rest, literal + tail),
{
    let head = literal.push(wild) + more;
    let line = head + seq![0x2fu8] + rest;
    let dir = literal + tail;
    lemma_head_length(line);
    lemma_head_length(dir);
    assert forall|i: int| 0 <= i < head.len() implies head[i] != SEP by {
        if i > literal.len() {
            assert(more.contains(more[i - literal.len() - 1]));
        }
    }
    assert forall|i: int| 0 <= i < dir.len() implies dir[i] != SEP by {
        if i >= literal.len() {
            assert(tail.contains(tail[i - literal.len()]));
        }
    }
    assert(line[head.len() as int] == SEP);
    let k = head_length(line);
    if k < head.len() {
        assert(line[k as int] == head[k as int]);
    }
    assert(k == head.len());
    assert(head_length(dir) == dir.len());
    assert(line.take(k as int) =~= head);
    assert(dir.take(dir.len() as int) =~= dir);
    lemma_literal_length(head);
    let m = literal_length(head);
    if m < literal.len() {
        assert(head[m as int] == literal[m as int]);
    }
    assert(head[literal.len() as int] == wild);
    assert(m == literal.len());
    assert(head.take(m as int) =~= literal);
    assert(dir.subrange(0, literal.len() as int) =~= literal);
}

proof fn lemma_goes_no_other_way(line: Seq<u8>, dir: Seq<u8>, i: int)
    requires
        0 <= i < line.len(),
        i < dir.len(),
        forall|k: int| 0 <= k <= i ==> !is_wild(#[trigger] line[k]),
        forall|k: int| 0 <= k < i ==> line[k] == dir[k],
        line[i] != dir[i],
    ensures
        !may_go_through(line, dir),
    decreases line.len(),
{
    let k = head_length(line) as int;
    let n = head_length(dir) as int;
    let head = line.take(k);
    let name = dir.take(n);
    lemma_head_length(line);
    lemma_head_length(dir);
    lemma_literal_length(head);
    let m = literal_length(head) as int;
    reveal_strlit("**");
    is_ascii_chars_encode_utf8("**"@);
    assert(encode_utf8("**"@)[0] == "**"@[0] as u8);
    assert(!is_wild(line[0]));
    if k > 0 {
        assert(head[0] == line[0]);
    }
    if k < i {
        // the components are the same
        assert(line[k] == dir[k]);
        if n < k {
            assert(line[n] == dir[n]);
        }
        assert(n == k);
        assert(line.skip(k + 1)[i - k - 1] == line[i]);
        assert(dir.skip(k + 1)[i - k - 1] == dir[i]);
        let (l, d) = (line.skip(k + 1), dir.skip(k + 1));
        assert forall|j: int| 0 <= j <= i - k - 1 implies !is_wild(#[trigger] l[j]) by {
            assert(l[j] == line[j + k + 1]);
        }
        assert forall|j: int| 0 <= j < i - k - 1 implies l[j] == d[j] by {
            assert(line[j + k + 1] == dir[j + k + 1]);
        }
        lemma_goes_no_other_way(l, d, i - k - 1);
    } else {
        if n < i {
            assert(line[n] == dir[n]);
        }
        assert(n >= i);
        if k == i {
            assert(n > i);
            if m < k {
                assert(is_wild(head[m]));
                assert(head[m] == line[m]);
            }
        } else {
            if m <= i {
                if m < head.len() {
                    assert(head[m] == line[m]);
                }
            }
            assert(m > i);
            if m == head.len() {
                if head == name {
                    assert(head[i] == name[i]);
                }
            } else if head.take(m).is_prefix_of(name) {
                assert(name.subrange(0, m)[i] == head.take(m)[i]);
            }
        }
    }
}

/// A line that differs from the path of a directory before its first wildcard does not reach into
/// it: `i` is the first place where they differ.
pub proof fn law_other_literals_do_not_reach(line: Seq<u8>, dir: Seq<u8>, i: int)
    requires
        0 <= i < line.len(),
        i < dir.len(),
        forall|k: int|
            0 <= k <= i ==> {
                let b = #[trigger] line[k];
                b != 0x2a && b != 0x3f && b != 0x5b && b != 0x5c
            },
        forall|k: int| 0 <= k < i ==> line[k] == dir[k],
        line[i] != dir[i],
    ensures
        !line_reaches_into(line, dir),
{
    lemma_goes_no_other_way(line, dir, i);
    if dir.push(SEP).is_prefix_of(line) {
        assert(line.subrange(0, dir.len() as int + 1)[i] == dir.push(SEP)[i]);
    }
    reveal_strlit("**/");
    is_ascii_chars_encode_utf8("**/"@);
    let deep = encode_utf8("**/"@);
    assert(deep[0] == "**/"@[0] as u8);
    if deep.is_prefix_of(line) {
        assert(line.subrange(0, deep.len() as int)[0] == deep[0]);
        assert(line[0] == 0x2a);
    }
}

/// How many separators there are.
pub open spec fn separators(s: Seq<u8>) -> nat
    decreases s.len(),
{
    if s.len() == 0 {
        0
    } else {
        (if s[0] == 0x2f { 1nat } else { 0nat }) + separators(s.drop_first())
    }
}

proof fn lemma_separators_behind(s: Seq<u8>, k: int)
    requires
        0 <= k < s.len(),
        s[k] == SEP,
        forall|i: int| 0 <= i < k ==> s[i] != SEP,
    ensures
        separators(s) == 1 + separators(s.skip(k + 1)),
    decreases k,
{
    if k == 0 {
        assert(s.drop_first() =~= s.skip(1));
    } else {
        assert forall|i: int| 0 <= i < k - 1 implies s.drop_first()[i] != SEP by {
            assert(s[i + 1] != SEP);
        }
        lemma_separators_behind(s.drop_first(), k - 1);
        assert(s.drop_first().skip(k) =~= s.skip(k + 1));
    }
}

proof fn lemma_no_separators(s: Seq<u8>)
    requires
        forall|i: int| 0 <= i < s.len() ==> s[i] != SEP,
    ensures
        separators(s) == 0,
    decreases s.len(),
{
    if s.len() > 0 {
        assert forall|i: int| 0 <= i < s.drop_first().len() implies s.drop_first()[i] != SEP by {
            assert(s[i + 1] != SEP);
        }
        lemma_no_separators(s.drop_first());
    }
}

proof fn lemma_goes_deeper(line: Seq<u8>, dir: Seq<u8>)
    requires
        may_go_through(line, dir),
        forall|i: int| 0 <= i < line.len() - 1 && #[trigger] line[i] == 0x2a ==> line[i + 1] != 0x2a,
    ensures
        separators(line) > separators(dir),
    decreases line.len(),
{
    let k = head_length(line) as int;
    let n = head_length(dir) as int;
    lemma_head_length(line);
    lemma_head_length(dir);
    lemma_separators_behind(line, k);
    reveal_strlit("**");
    is_ascii_chars_encode_utf8("**"@);
    let stars = encode_utf8("**"@);
    assert(stars[0] == "**"@[0] as u8 && stars[1] == "**"@[1] as u8);
    if line.take(k) == stars {
        assert(line[0] == stars[0] && line[1] == stars[1]);
    }
    if n == dir.len() {
        lemma_no_separators(dir);
    } else {
        lemma_separators_behind(dir, n);
        let l = line.skip(k + 1);
        assert forall|i: int| 0 <= i < l.len() - 1 && #[trigger] l[i] == 0x2a implies l[i + 1]
            != 0x2a by {
            assert(line[i + k + 1] == l[i]);
            assert(line[i + k + 2] == l[i + 1]);
        }
        lemma_goes_deeper(l, dir.skip(n + 1));
    }
}

proof fn lemma_more_separators(a: Seq<u8>, rest: Seq<u8>)
    ensures
        separators(a + rest) == separators(a) + separators(rest),
    decreases a.len(),
{
    if a.len() == 0 {
        assert(a + rest =~= rest);
    } else {
        assert((a + rest).drop_first() =~= a.drop_first() + rest);
        lemma_more_separators(a.drop_first(), rest);
    }
}

/// A line without `**` reaches only into directories that it goes deeper than: each of its
/// components stands for one.
pub proof fn law_single_stars_stand_for_one_component(line: Seq<u8>, dir: Seq<u8>)
    requires
        line_reaches_into(line, dir),
        forall|i: int| 0 <= i < line.len() - 1 && #[trigger] line[i] == 0x2a ==> line[i + 1] != 0x2a,
    ensures
        separators(line) > separators(dir),
{
    reveal_strlit("**/");
    is_ascii_chars_encode_utf8("**/"@);
    let deep = encode_utf8("**/"@);
    assert(deep[0] == "**/"@[0] as u8 && deep[1] == "**/"@[1] as u8);
    if deep.is_prefix_of(line) {
        assert(line.subrange(0, 3)[0] == deep[0]);
        assert(line.subrange(0, 3)[1] == deep[1]);
        assert(line[0] == 0x2a && line[1] == 0x2a);
    }
    if dir.push(SEP).is_prefix_of(line) {
        let n = dir.len() as int + 1;
        assert(line =~= line.subrange(0, n) + line.skip(n));
        lemma_more_separators(dir.push(SEP), line.skip(n));
        assert(dir.push(SEP) =~= dir + seq![SEP]);
        lemma_more_separators(dir, seq![SEP]);
        lemma_separators_behind(seq![SEP], 0);
    } else {
        lemma_goes_deeper(line, dir);
    }
}

/// A directory is looked into exactly if one of the lines reaches into it.
pub proof fn law_one_line_is_enough(lines: Seq<Seq<u8>>, more: Seq<u8>, dir: Seq<u8>)
    ensures
        !some_reaches_into(Seq::empty(), dir),
        some_reaches_into(lines.push(more), dir) <==> some_reaches_into(lines, dir)
            || line_reaches_into(more, dir),
{
    let all = lines.push(more);
    assert(all[lines.len() as int] == more);
    if some_reaches_into(lines, dir) {
        let i = choose|i: int|
            0 <= i < lines.len() && line_reaches_into(#[trigger] lines[i], dir);
        assert(all[i] == lines[i]);
    }
    if some_reaches_into(all, dir) {
        let i = choose|i: int| 0 <= i < all.len() && line_reaches_into(#[trigger] all[i], dir);
        if i < lines.len() {
            assert(lines[i] == all[i]);
        }
    }
}

/// A directory is looked into if a line of `.worktreeinclude` goes on from its path, as it is
/// shown, or matches at any depth.
pub proof fn law_listed_directories_are_looked_into(
    lines: Seq<Seq<u8>>,
    i: int,
    dir: Seq<u8>,
    rest: Seq<u8>,
)
    requires
        0 <= i < lines.len(),
        lines[i] == encode_utf8(lossy_text(dir)) + seq![0x2fu8] + rest || lines[i] == encode_utf8(
            "**/"@,
        ) + rest,
    ensures
        reaches_into(lines, dir),
{
    law_paths_and_double_stars_reach(encode_utf8(lossy_text(dir)), rest);
    assert(line_reaches_into(lines[i], encode_utf8(lossy_text(dir))));
}

/// A `.worktreeinclude` that is no text names nothing below directories.
pub proof fn law_other_than_text_names_nothing(content: Seq<u8>, dir: Seq<u8>)
    requires
        !valid_utf8(content),
    ensures
        !reaches_into(included_paths(content), dir),
{
}

} // verus!
