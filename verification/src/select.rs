//! Which paths of the source worktree get cloned.
//!
//! Tracked files are always cloned. Untracked scratch files never are. Ignored files (build
//! caches: node_modules, _build, deps, target, ...) are carried over as the rules say.
//!
//! Only tracked directories are walked, so a large ignored tree costs one clone call. The walk
//! says what it has to know of the worktree next ([`Request`]), and goes on when it is told
//! ([`Answer`]).
use vstd::prelude::*;
use vstd::string::*;
use vstd::utf8::*;
use crate::bytes::{copy, same, views};
use crate::order::{ascending, sort, Order};
use crate::path::{
    is_name, is_parent, is_relative, is_under, joined, lemma_joined_relative, lemma_parents_of,
    parents, under,
};
use crate::path;
use crate::path_map::PathSet;
use crate::rules::{
    decision, facts_matter, is_never_carried, ChildFacts, Decision, DirFacts, Facts, FileKind,
    Markers, RuleSet, Rules,
};
use crate::stat::SourceSnapshot;
use crate::text::{lossy, lossy_text, texts};

verus! {

/// What a walk goes by.
pub struct Selector<'a> {
    pub source: &'a [u8],
    pub dest: &'a [u8],
    pub snapshot: &'a SourceSnapshot,
    pub rules: &'a Rules,
    pub include_ignored: bool,
}

/// What a walk goes by.
pub struct Setting {
    pub source: Seq<u8>,
    pub dest: Seq<u8>,
    /// The tracked files.
    pub files: Set<Seq<u8>>,
    /// The directories that hold tracked files.
    pub dirs: Set<Seq<u8>>,
    /// Those of the tracked files that are submodules.
    pub submodules: Set<Seq<u8>>,
    pub rules: RuleSet,
    pub include_ignored: bool,
}

impl View for Selector<'_> {
    type V = Setting;

    open spec fn view(&self) -> Setting {
        Setting {
            source: self.source@,
            dest: self.dest@,
            files: self.snapshot@.files,
            dirs: self.snapshot@.dirs,
            submodules: self.snapshot@.submodules,
            rules: self.rules@,
            include_ignored: self.include_ignored,
        }
    }
}

/// An entry of a directory.
pub struct Listed {
    pub name: Vec<u8>,
    pub kind: FileKind,
}

impl View for Listed {
    type V = (Seq<u8>, FileKind);

    open spec fn view(&self) -> (Seq<u8>, FileKind) {
        (self.name@, self.kind)
    }
}

/// The names and kinds of directory entries.
pub open spec fn listing(list: Seq<Listed>) -> Seq<(Seq<u8>, FileKind)> {
    Seq::new(list.len(), |i: int| list[i]@)
}

/// What the walk has to know next. Paths are relative to the source worktree.
pub enum Request {
    /// The entries of this directory.
    List(Vec<u8>),
    /// Whether git ignores this path.
    Ignored(Vec<u8>),
    /// What is in this directory.
    Inspect(Vec<u8>),
    /// Nothing: it can go on.
    Proceed,
    /// Nothing: it is over.
    Done,
}

/// What the walk has to know next.
pub enum Question {
    List(Seq<u8>),
    Ignored(Seq<u8>),
    Inspect(Seq<u8>),
    Proceed,
    Done,
}

impl View for Request {
    type V = Question;

    open spec fn view(&self) -> Question {
        match self {
            Request::List(p) => Question::List(p@),
            Request::Ignored(p) => Question::Ignored(p@),
            Request::Inspect(p) => Question::Inspect(p@),
            Request::Proceed => Question::Proceed,
            Request::Done => Question::Done,
        }
    }
}

/// What the walk is told.
pub enum Answer {
    Entries(Vec<Listed>),
    Ignored(bool),
    Found(DirFacts),
    Nothing,
}

/// What the walk is told.
pub enum Told {
    Entries(Seq<(Seq<u8>, FileKind)>),
    Ignored(bool),
    Found(Facts),
    Nothing,
}

impl View for Answer {
    type V = Told;

    open spec fn view(&self) -> Told {
        match self {
            Answer::Entries(list) => Told::Entries(listing(list@)),
            Answer::Ignored(b) => Told::Ignored(*b),
            Answer::Found(facts) => Told::Found(facts@),
            Answer::Nothing => Told::Nothing,
        }
    }
}

/// What is done with a directory entry.
#[derive(Clone, Copy, Debug, PartialEq, Eq, Structural)]
pub enum Move {
    /// Cloned with its directory.
    Leave,
    /// Not cloned.
    Skip,
    /// Ignored and carried over.
    Carry,
    /// Ignored and left behind on purpose.
    Exclude,
    /// Its own entries are looked at; inside an ignored directory everything is ignored. A
    /// directory that is entered only for what is carried from it is skipped as a whole when
    /// there is nothing, so that it isn't recreated as an empty directory.
    Enter { in_ignored: bool, for_carried: bool },
    /// It depends on whether git ignores the path.
    AskIgnored,
    /// It depends on what is in the directory.
    AskFacts,
}

/// What has been selected so far.
pub struct Chosen {
    /// Not cloned.
    pub skip: Set<Seq<u8>>,
    /// Ignored and carried over.
    pub carried: Seq<Seq<u8>>,
    /// Ignored and left behind on purpose.
    pub excluded: Seq<Seq<u8>>,
}

/// Nothing has been selected.
pub open spec fn nothing_chosen() -> Chosen {
    Chosen { skip: Set::empty(), carried: Seq::empty(), excluded: Seq::empty() }
}

/// Whatever is in a directory of which nothing is known.
pub open spec fn no_facts() -> Facts {
    Facts {
        git: false,
        checkouts: false,
        markers: Markers { pyvenv_cfg: false, cmake_cache: false },
        children: Seq::empty(),
    }
}

/// What a decision of the rules means for an entry.
pub open spec fn decided(d: Decision) -> Move {
    match d {
        Decision::Carry => Move::Carry,
        Decision::Exclude => Move::Exclude,
        Decision::Skip => Move::Skip,
        Decision::Descend => Move::Enter { in_ignored: true, for_carried: true },
    }
}

/// What is done with an ignored entry.
pub open spec fn ignored_move(s: Setting, path: Seq<u8>, name: Seq<u8>, kind: FileKind) -> Move {
    if !s.include_ignored {
        Move::Skip
    } else if facts_matter(name, kind) {
        Move::AskFacts
    } else {
        decided(decision(s.rules, path, name, kind, no_facts()))
    }
}

/// What is done with an entry that no index has, once git has said whether it is ignored.
/// Untracked scratch is skipped, but its directories may still hold ignored caches
/// (`vendor/bundle/` ignored, `vendor/` not).
pub open spec fn untracked_move(
    s: Setting,
    path: Seq<u8>,
    name: Seq<u8>,
    kind: FileKind,
    ignored: bool,
) -> Move {
    if ignored {
        ignored_move(s, path, name, kind)
    } else if kind == FileKind::Directory && s.include_ignored {
        Move::Enter { in_ignored: false, for_carried: true }
    } else {
        Move::Skip
    }
}

/// The path is one that is never looked into: the worktree's own `.git`, or the new worktree or
/// a directory around it.
pub open spec fn is_off_limits(s: Setting, path: Seq<u8>) -> bool {
    path == encode_utf8(".git"@) || is_under(s.dest, joined(s.source, path))
}

/// The index has something of this kind at the path: a directory is one that holds tracked files
/// or a submodule, anything else is a tracked file. A file where the index has a directory, or a
/// directory where it has a file, is untracked.
pub open spec fn is_indexed(s: Setting, path: Seq<u8>, kind: FileKind) -> bool {
    if kind == FileKind::Directory {
        s.dirs.contains(path) || s.submodules.contains(path)
    } else {
        s.files.contains(path)
    }
}

/// What is done with the entry `name` of `dir`, as far as it is known without asking.
pub open spec fn first_move(
    s: Setting,
    dir: Seq<u8>,
    in_ignored: bool,
    name: Seq<u8>,
    kind: FileKind,
) -> Move {
    let path = joined(dir, name);
    if is_off_limits(s, path) {
        Move::Skip
    } else if in_ignored {
        ignored_move(s, path, name, kind)
    } else if kind == FileKind::Directory && s.dirs.contains(path) {
        Move::Enter { in_ignored: false, for_carried: false }
    } else if is_indexed(s, path, kind) {
        Move::Leave
    } else {
        Move::AskIgnored
    }
}

/// Where a walk stands in the directory that it looks at.
#[derive(Clone, Copy, Debug, PartialEq, Eq, Structural)]
pub enum Stage {
    /// Its entries are not known yet.
    List,
    /// At an entry, or at the end.
    Visit,
    /// At an entry, waiting to hear whether git ignores it.
    AskIgnored,
    /// At an entry, waiting to hear what is in it.
    AskFacts,
}

/// A directory that a walk is in.
pub struct Level {
    pub dir: Seq<u8>,
    pub in_ignored: bool,
    /// How many paths were carried when it was entered, if only for what is carried from it.
    pub mark: Option<nat>,
    /// The entries that have not been dealt with.
    pub rest: Seq<(Seq<u8>, FileKind)>,
}

/// Where a walk stands.
pub struct Position {
    /// The directories that it is in, the innermost last.
    pub levels: Seq<Level>,
    pub stage: Stage,
    pub chosen: Chosen,
}

/// A walk that is at the root of the worktree.
pub open spec fn at_start() -> Position {
    Position {
        levels: seq![
            Level { dir: Seq::empty(), in_ignored: false, mark: None, rest: Seq::empty() },
        ],
        stage: Stage::List,
        chosen: nothing_chosen(),
    }
}

/// All paths of the walk are relative, and an entry is there where one is asked about.
pub open spec fn is_valid(w: Position) -> bool {
    &&& forall|i: int| 0 <= i < w.levels.len() ==> is_valid_level(#[trigger] w.levels[i])
    &&& w.stage == Stage::List ==> w.levels.len() > 0
    &&& w.stage == Stage::AskIgnored || w.stage == Stage::AskFacts ==> w.levels.len() > 0
        && w.levels.last().rest.len() > 0
}

pub open spec fn is_valid_level(l: Level) -> bool {
    &&& l.dir.len() == 0 || is_relative(l.dir)
    &&& are_names(l.rest)
}

/// Entries whose names are names.
pub open spec fn are_names(list: Seq<(Seq<u8>, FileKind)>) -> bool {
    forall|i: int| 0 <= i < list.len() ==> is_name((#[trigger] list[i]).0)
}

/// The path of the entry that a walk is at.
pub open spec fn entry_path(w: Position) -> Seq<u8> {
    joined(w.levels.last().dir, w.levels.last().rest[0].0)
}

/// What a walk has to know next.
pub open spec fn question_of(w: Position) -> Question {
    if w.levels.len() == 0 {
        Question::Done
    } else {
        match w.stage {
            Stage::List => Question::List(w.levels.last().dir),
            Stage::Visit => Question::Proceed,
            Stage::AskIgnored => Question::Ignored(entry_path(w)),
            Stage::AskFacts => Question::Inspect(entry_path(w)),
        }
    }
}

/// What a walk is told is what it has to know.
pub open spec fn fits(w: Position, told: Told) -> bool {
    match question_of(w) {
        Question::List(_) => told is Entries && are_names(told->Entries_0),
        Question::Ignored(_) => told is Ignored,
        Question::Inspect(_) => told is Found,
        Question::Proceed => told is Nothing,
        Question::Done => false,
    }
}

/// `dir` is skipped in place of all below it.
pub open spec fn collapsed(c: Chosen, dir: Seq<u8>) -> Chosen {
    Chosen { skip: c.skip.filter(|p: Seq<u8>| !is_under(p, dir)).insert(dir), ..c }
}

/// What has been selected once a directory is done with.
pub open spec fn closed_with(c: Chosen, dir: Seq<u8>, mark: Option<nat>) -> Chosen {
    if mark == Some(c.carried.len()) {
        collapsed(c, dir)
    } else {
        c
    }
}

/// The walk when the innermost directory is done with.
pub open spec fn left(w: Position) -> Position {
    let l = w.levels.last();
    Position {
        levels: w.levels.drop_last(),
        stage: Stage::Visit,
        chosen: closed_with(w.chosen, l.dir, l.mark),
    }
}

/// What has been selected once `path` is dealt with.
pub open spec fn chosen_by(c: Chosen, m: Move, path: Seq<u8>) -> Chosen {
    match m {
        Move::Skip => Chosen { skip: c.skip.insert(path), ..c },
        Move::Carry => Chosen { carried: c.carried.push(path), ..c },
        Move::Exclude => Chosen {
            skip: c.skip.insert(path),
            excluded: c.excluded.push(path),
            ..c
        },
        _ => c,
    }
}

/// The walk once the entry that it is at is dealt with.
pub open spec fn moved(w: Position, m: Move) -> Position {
    let l = w.levels.last();
    let path = entry_path(w);
    let on = w.levels.drop_last().push(Level { rest: l.rest.drop_first(), ..l });
    match m {
        Move::AskIgnored => Position { stage: Stage::AskIgnored, ..w },
        Move::AskFacts => Position { stage: Stage::AskFacts, ..w },
        Move::Enter { in_ignored, for_carried } => Position {
            levels: on.push(
                Level {
                    dir: path,
                    in_ignored,
                    mark: if for_carried {
                        Some(w.chosen.carried.len())
                    } else {
                        None
                    },
                    rest: Seq::empty(),
                },
            ),
            stage: Stage::List,
            chosen: w.chosen,
        },
        _ => Position {
            levels: on,
            stage: Stage::Visit,
            chosen: chosen_by(w.chosen, m, path),
        },
    }
}

/// What is done with the entry that a walk is at, now that it knows what it asked for.
pub open spec fn move_on(s: Setting, w: Position, told: Told) -> Move {
    let l = w.levels.last();
    let (name, kind) = l.rest[0];
    match told {
        Told::Ignored(b) => untracked_move(s, entry_path(w), name, kind, b),
        Told::Found(facts) => decided(decision(s.rules, entry_path(w), name, kind, facts)),
        _ => first_move(s, l.dir, l.in_ignored, name, kind),
    }
}

/// Where a walk stands once it is told what it has to know.
pub open spec fn answered(s: Setting, w: Position, told: Told) -> Position {
    match told {
        Told::Entries(list) => Position {
            levels: w.levels.drop_last().push(Level { rest: list, ..w.levels.last() }),
            stage: Stage::Visit,
            chosen: w.chosen,
        },
        Told::Nothing => if w.levels.last().rest.len() == 0 {
            left(w)
        } else {
            moved(w, move_on(s, w, told))
        },
        _ => moved(w, move_on(s, w, told)),
    }
}

struct Frame {
    dir: Vec<u8>,
    in_ignored: bool,
    mark: Option<usize>,
    entries: Vec<Listed>,
    next: usize,
}

impl Frame {
    spec fn level(&self) -> Level {
        Level {
            dir: self.dir@,
            in_ignored: self.in_ignored,
            mark: match self.mark {
                Some(n) => Some(n as nat),
                None => None,
            },
            rest: listing(self.entries@).skip(self.next as int),
        }
    }
}

spec fn levels_of(frames: Seq<Frame>) -> Seq<Level> {
    Seq::new(frames.len(), |i: int| frames[i].level())
}

/// A walk through the source worktree.
pub struct Walk {
    frames: Vec<Frame>,
    stage: Stage,
    skip: PathSet,
    carried: Vec<Vec<u8>>,
    excluded: Vec<Vec<u8>>,
}

impl View for Walk {
    type V = Position;

    closed spec fn view(&self) -> Position {
        Position {
            levels: levels_of(self.frames@),
            stage: self.stage,
            chosen: Chosen {
                skip: self.skip@,
                carried: views(self.carried@),
                excluded: views(self.excluded@),
            },
        }
    }
}

impl Walk {
    pub closed spec fn wf(&self) -> bool {
        is_valid(self@) && forall|i: int|
            0 <= i < self.frames@.len() ==> (#[trigger] self.frames@[i]).next
                <= self.frames@[i].entries@.len()
    }

    /// A walk from the root of the source worktree.
    pub fn start() -> (r: Walk)
        ensures
            r.wf(),
            r@ == at_start(),
    {
        let mut frames: Vec<Frame> = Vec::new();
        frames.push(
            Frame {
                dir: Vec::new(),
                in_ignored: false,
                mark: None,
                entries: Vec::new(),
                next: 0,
            },
        );
        let r = Walk {
            frames,
            stage: Stage::List,
            skip: PathSet::new(),
            carried: Vec::new(),
            excluded: Vec::new(),
        };
        proof {
            let l = r.frames@[0].level();
            assert(l.rest =~= Seq::<(Seq<u8>, FileKind)>::empty());
            assert(l.dir =~= Seq::<u8>::empty());
            assert(r@.levels =~= at_start().levels);
            assert(r@.chosen.carried =~= Seq::<Seq<u8>>::empty());
            assert(r@.chosen.excluded =~= Seq::<Seq<u8>>::empty());
        }
        r
    }

    /// What the walk has to know next.
    pub fn request(&self) -> (r: Request)
        requires
            self.wf(),
        ensures
            r@ == question_of(self@),
    {
        if self.frames.len() == 0 {
            return Request::Done;
        }
        let top: &Frame = &self.frames[self.frames.len() - 1];
        assert(self@.levels.last() == top.level());
        match self.stage {
            Stage::List => Request::List(copy(top.dir.as_slice())),
            Stage::Visit => Request::Proceed,
            Stage::AskIgnored => Request::Ignored(top.path()),
            Stage::AskFacts => Request::Inspect(top.path()),
        }
    }
}

impl Frame {
    /// The path of the entry that is to be dealt with next.
    fn path(&self) -> (r: Vec<u8>)
        requires
            self.next < self.entries@.len(),
        ensures
            r@ == joined(self.dir@, self.level().rest[0].0),
    {
        path::join(self.dir.as_slice(), self.entries[self.next].name.as_slice())
    }
}

proof fn lemma_levels_of(frames: Seq<Frame>)
    requires
        frames.len() > 0,
    ensures
        levels_of(frames).last() == frames.last().level(),
        levels_of(frames).drop_last() == levels_of(frames.drop_last()),
{
    assert(levels_of(frames).drop_last() =~= levels_of(frames.drop_last()));
}

proof fn lemma_levels_of_push(frames: Seq<Frame>, f: Frame)
    ensures
        levels_of(frames.push(f)) == levels_of(frames).push(f.level()),
{
    assert(levels_of(frames.push(f)) =~= levels_of(frames).push(f.level()));
}

impl Walk {
    /// Deals with the entry that the walk is at.
    fn act(&mut self, m: Move)
        requires
            old(self).wf(),
            old(self)@.levels.len() > 0,
            old(self)@.levels.last().rest.len() > 0,
        ensures
            final(self).wf(),
            final(self)@ == moved(old(self)@, m),
    {
        let ghost w = self@;
        proof {
            lemma_levels_of(self.frames@);
            let l = w.levels.last();
            assert(is_valid_level(w.levels[w.levels.len() - 1]));
            assert(is_name(l.rest[0].0));
            lemma_joined_relative(l.dir, l.rest[0].0);
        }
        match m {
            Move::AskIgnored => {
                self.stage = Stage::AskIgnored;
                return;
            },
            Move::AskFacts => {
                self.stage = Stage::AskFacts;
                return;
            },
            _ => {},
        }
        let path: Vec<u8> = self.frames[self.frames.len() - 1].path();
        let ghost frames = self.frames@;
        if let Some(mut top) = self.frames.pop() {
            let ghost before = top;
            assert(self.frames@ =~= frames.drop_last());
            let size: usize = top.entries.len();
            assert(before.level().rest.len() == size - top.next);
            top.next = top.next + 1;
            proof {
                let l = before.level();
                assert(top.level().rest =~= l.rest.drop_first());
                assert forall|i: int| 0 <= i < l.rest.drop_first().len() implies is_name(
                    (#[trigger] l.rest.drop_first()[i]).0,
                ) by {
                    assert(l.rest.drop_first()[i] == l.rest[i + 1]);
                }
                lemma_levels_of_push(self.frames@, top);
            }
            self.frames.push(top);
        }
        let ghost on = w.levels.drop_last().push(
            Level { rest: w.levels.last().rest.drop_first(), ..w.levels.last() },
        );
        assert(levels_of(self.frames@) == on);
        self.stage = Stage::Visit;
        match m {
            Move::Skip => {
                self.skip.insert(path.as_slice());
            },
            Move::Carry => {
                let ghost list = self.carried@;
                self.carried.push(path);
                assert(views(self.carried@) =~= views(list).push(path@));
            },
            Move::Exclude => {
                let ghost list = self.excluded@;
                self.skip.insert(path.as_slice());
                self.excluded.push(path);
                assert(views(self.excluded@) =~= views(list).push(path@));
            },
            Move::Enter { in_ignored, for_carried } => {
                let mark: Option<usize> = if for_carried {
                    Some(self.carried.len())
                } else {
                    None
                };
                let frame = Frame {
                    dir: path,
                    in_ignored,
                    mark,
                    entries: Vec::new(),
                    next: 0,
                };
                proof {
                    assert(frame.level().rest =~= Seq::<(Seq<u8>, FileKind)>::empty());
                    lemma_levels_of_push(self.frames@, frame);
                }
                self.frames.push(frame);
                self.stage = Stage::List;
            },
            _ => {},
        }
        assert(self@.levels == moved(w, m).levels);
    }

    /// Leaves the innermost directory.
    fn leave(&mut self)
        requires
            old(self).wf(),
            old(self)@.levels.len() > 0,
        ensures
            final(self).wf(),
            final(self)@ == left(old(self)@),
    {
        let ghost w = self@;
        proof {
            lemma_levels_of(self.frames@);
        }
        let ghost frames = self.frames@;
        if let Some(top) = self.frames.pop() {
            assert(self.frames@ =~= frames.drop_last());
            if let Some(mark) = top.mark {
                if self.carried.len() == mark {
                    self.skip.remove_under(top.dir.as_slice());
                    self.skip.insert(top.dir.as_slice());
                }
            }
        }
        self.stage = Stage::Visit;
        assert(self@.levels == left(w).levels);
    }
}

impl Selector<'_> {
    /// Goes on with a walk that has been told what it has to know.
    pub fn answer(&self, walk: &mut Walk, answer: Answer)
        requires
            old(walk).wf(),
            fits(old(walk)@, answer@),
        ensures
            final(walk).wf(),
            final(walk)@ == answered(self@, old(walk)@, answer@),
    {
        let ghost w = walk@;
        proof {
            lemma_levels_of(walk.frames@);
            assert(is_valid_level(w.levels[w.levels.len() - 1]));
        }
        match answer {
            Answer::Entries(entries) => {
                let ghost frames = walk.frames@;
                if let Some(mut top) = walk.frames.pop() {
                    assert(walk.frames@ =~= frames.drop_last());
                    top.entries = entries;
                    top.next = 0;
                    proof {
                        assert(top.level().rest =~= listing(entries@));
                        lemma_levels_of_push(walk.frames@, top);
                    }
                    walk.frames.push(top);
                }
                walk.stage = Stage::Visit;
            },
            Answer::Ignored(ignored) => {
                let m: Move = self.on_ignored(walk, ignored);
                walk.act(m);
            },
            Answer::Found(facts) => {
                let m: Move = self.on_facts(walk, &facts);
                walk.act(m);
            },
            Answer::Nothing => {
                let top: &Frame = &walk.frames[walk.frames.len() - 1];
                assert(top.level().rest.len() == top.entries@.len() - top.next);
                if top.next == top.entries.len() {
                    walk.leave();
                } else {
                    let m: Move = self.at_first(walk);
                    walk.act(m);
                }
            },
        }
    }

    /// What is done with the entry that the walk is at, as far as it is known without asking.
    fn at_first(&self, walk: &Walk) -> (r: Move)
        requires
            walk.wf(),
            walk@.levels.len() > 0,
            walk@.levels.last().rest.len() > 0,
        ensures
            r == move_on(self@, walk@, Told::Nothing),
    {
        let top: &Frame = &walk.frames[walk.frames.len() - 1];
        proof {
            lemma_levels_of(walk.frames@);
            reveal_strlit(".git");
            is_ascii_chars_encode_utf8(".git"@);
        }
        let kind: FileKind = top.entries[top.next].kind;
        let path: Vec<u8> = top.path();
        let git: [u8; 4] = [0x2e, 0x67, 0x69, 0x74];
        assert(git@ =~= encode_utf8(".git"@));
        if same(path.as_slice(), git.as_slice()) || under(
            self.dest,
            path::join(self.source, path.as_slice()).as_slice(),
        ) {
            return Move::Skip;
        }
        if top.in_ignored {
            return self.when_ignored(walk);
        }
        if kind == FileKind::Directory {
            if self.snapshot.is_tracked_dir(path.as_slice()) {
                return Move::Enter { in_ignored: false, for_carried: false };
            }
            if self.snapshot.is_submodule(path.as_slice()) {
                return Move::Leave;
            }
        } else if self.snapshot.is_tracked_file(path.as_slice()) {
            return Move::Leave;
        }
        Move::AskIgnored
    }

    /// What is done with the entry that the walk is at, which is ignored.
    fn when_ignored(&self, walk: &Walk) -> (r: Move)
        requires
            walk.wf(),
            walk@.levels.len() > 0,
            walk@.levels.last().rest.len() > 0,
        ensures
            r == ignored_move(
                self@,
                entry_path(walk@),
                walk@.levels.last().rest[0].0,
                walk@.levels.last().rest[0].1,
            ),
    {
        let top: &Frame = &walk.frames[walk.frames.len() - 1];
        proof {
            lemma_levels_of(walk.frames@);
        }
        let entry: &Listed = &top.entries[top.next];
        if !self.include_ignored {
            return Move::Skip;
        }
        if entry.kind == FileKind::Directory && !is_never_carried(entry.name.as_slice()) {
            return Move::AskFacts;
        }
        let facts = DirFacts {
            git: false,
            checkouts: false,
            markers: Markers { pyvenv_cfg: false, cmake_cache: false },
            children: Vec::new(),
        };
        assert(facts@.children =~= Seq::<ChildFacts>::empty());
        self.on_facts(walk, &facts)
    }

    /// What is done with the entry that the walk is at once it is known whether git ignores it.
    fn on_ignored(&self, walk: &Walk, ignored: bool) -> (r: Move)
        requires
            walk.wf(),
            walk@.levels.len() > 0,
            walk@.levels.last().rest.len() > 0,
        ensures
            r == move_on(self@, walk@, Told::Ignored(ignored)),
    {
        let top: &Frame = &walk.frames[walk.frames.len() - 1];
        proof {
            lemma_levels_of(walk.frames@);
        }
        if ignored {
            self.when_ignored(walk)
        } else if top.entries[top.next].kind == FileKind::Directory && self.include_ignored {
            Move::Enter { in_ignored: false, for_carried: true }
        } else {
            Move::Skip
        }
    }

    /// What is done with the entry that the walk is at, which is ignored, once it is known what
    /// is in it.
    fn on_facts(&self, walk: &Walk, facts: &DirFacts) -> (r: Move)
        requires
            walk.wf(),
            walk@.levels.len() > 0,
            walk@.levels.last().rest.len() > 0,
        ensures
            r == move_on(self@, walk@, Told::Found(facts@)),
    {
        let top: &Frame = &walk.frames[walk.frames.len() - 1];
        proof {
            lemma_levels_of(walk.frames@);
            assert(is_valid_level(walk@.levels[walk@.levels.len() - 1]));
            lemma_joined_relative(top.dir@, top.level().rest[0].0);
        }
        let path: Vec<u8> = top.path();
        let entry: &Listed = &top.entries[top.next];
        match self.rules.decide(path.as_slice(), entry.name.as_slice(), entry.kind, facts) {
            Decision::Carry => Move::Carry,
            Decision::Exclude => Move::Exclude,
            Decision::Skip => Move::Skip,
            Decision::Descend => Move::Enter { in_ignored: true, for_carried: true },
        }
    }
}

/// What is cloned.
pub struct Selection {
    /// Paths (relative to the worktree root) not to clone.
    pub skip: PathSet,
    /// Ancestors of skipped paths; these directories are recreated, not cloned whole.
    pub partial: PathSet,
    /// Ignored paths carried over.
    pub carried: Vec<Vec<u8>>,
    /// Ignored paths left behind on purpose (never carried or excluded).
    pub excluded: Vec<Vec<u8>>,
}

/// The directories on the way to the paths of a set, without the root.
pub open spec fn ancestors_of(paths: Set<Seq<u8>>) -> Set<Seq<u8>> {
    Set::new(|d: Seq<u8>| d.len() > 0 && exists|p: Seq<u8>| #[trigger] paths.contains(p) && is_parent(d, p))
}

impl Selector<'_> {
    /// What a walk that is over has selected.
    pub fn select(&self, walk: Walk) -> (r: Selection)
        requires
            question_of(walk@) is Done,
        ensures
            r.skip@ == walk@.chosen.skip,
            r.partial@ == ancestors_of(walk@.chosen.skip),
            views(r.carried@).to_multiset() == walk@.chosen.carried.to_multiset(),
            ascending(Order::Paths, views(r.carried@)),
            views(r.excluded@).to_multiset() == walk@.chosen.excluded.to_multiset(),
            ascending(Order::Paths, views(r.excluded@)),
    {
        let Walk { skip, mut carried, mut excluded, .. } = walk;
        sort(Order::Paths, &mut carried);
        sort(Order::Paths, &mut excluded);
        let partial: PathSet = ancestors(&skip);
        Selection { skip, partial, carried, excluded }
    }
}

impl Selection {
    /// Everything but the worktree's own `.git`.
    pub fn everything() -> (r: Selection)
        ensures
            r.skip@ == set![encode_utf8(".git"@)],
            r.partial@ == Set::<Seq<u8>>::empty(),
            r.carried@ == Seq::<Vec<u8>>::empty(),
            r.excluded@ == Seq::<Vec<u8>>::empty(),
    {
        let mut skip: PathSet = PathSet::new();
        let git: [u8; 4] = [0x2e, 0x67, 0x69, 0x74];
        proof {
            reveal_strlit(".git");
            is_ascii_chars_encode_utf8(".git"@);
            assert(git@ =~= encode_utf8(".git"@));
        }
        skip.insert(git.as_slice());
        assert(skip@ =~= set![encode_utf8(".git"@)]);
        Selection { skip, partial: PathSet::new(), carried: Vec::new(), excluded: Vec::new() }
    }
}

/// The directories on the way to the paths of a set, without the root.
fn ancestors(paths: &PathSet) -> (r: PathSet)
    ensures
        r@ == ancestors_of(paths@),
{
    let mut r: PathSet = PathSet::new();
    let all: Vec<Vec<u8>> = paths.paths();
    let ghost seen = views(all@);
    let mut i: usize = 0;
    while i < all.len()
        invariant
            i <= all@.len(),
            seen == views(all@),
            forall|d: Seq<u8>| #[trigger]
                r@.contains(d) <==> d.len() > 0 && exists|j: int|
                    0 <= j < i && is_parent(d, #[trigger] seen[j]),
        decreases all@.len() - i,
    {
        let p: &Vec<u8> = &all[i];
        assert(seen[i as int] == p@);
        let dirs: Vec<Vec<u8>> = parents(p.as_slice());
        let ghost list = views(dirs@);
        let ghost done = r@;
        let mut k: usize = 0;
        while k < dirs.len()
            invariant
                k <= dirs@.len(),
                list == views(dirs@),
                forall|d: Seq<u8>| #[trigger]
                    r@.contains(d) <==> done.contains(d) || d.len() > 0 && exists|j: int|
                        0 <= j < k && list[j] == d,
            decreases dirs@.len() - k,
        {
            assert(list[k as int] == dirs@[k as int]@);
            if dirs[k].len() > 0 {
                r.insert(dirs[k].as_slice());
            }
            k += 1;
        }
        i += 1;
        proof {
            assert forall|d: Seq<u8>| #[trigger] r@.contains(d) <==> d.len() > 0 && exists|j: int|
                0 <= j < i && is_parent(d, #[trigger] seen[j]) by {
                lemma_parents_of(p@, d);
                assert(done.contains(d) <==> d.len() > 0 && exists|j: int|
                    0 <= j < i - 1 && is_parent(d, #[trigger] seen[j]));
                if is_parent(d, p@) {
                    let j = list.index_of(d);
                    assert(list[j] == d);
                    assert(is_parent(d, seen[i - 1]));
                }
                if exists|j: int| 0 <= j < i && is_parent(d, #[trigger] seen[j]) {
                    let j = choose|j: int| 0 <= j < i && is_parent(d, #[trigger] seen[j]);
                    assert(j == i - 1 || 0 <= j < i - 1);
                }
            }
        }
    }
    proof {
        assert forall|d: Seq<u8>| r@.contains(d) == ancestors_of(paths@).contains(d) by {
            if r@.contains(d) {
                let j = choose|j: int| 0 <= j < i && is_parent(d, #[trigger] seen[j]);
                assert(seen.to_set().contains(seen[j]));
                assert(paths@.contains(seen[j]));
            }
            if ancestors_of(paths@).contains(d) {
                let p = choose|p: Seq<u8>| #[trigger] paths@.contains(p) && is_parent(d, p);
                assert(seen.to_set().contains(p));
                let j = seen.index_of(p);
                assert(is_parent(d, seen[j]));
            }
        }
        assert(r@ =~= ancestors_of(paths@));
    }
    r
}

/// The texts of a list with a comma and a space between them.
pub open spec fn with_commas(list: Seq<Seq<char>>) -> Seq<char>
    decreases list.len(),
{
    if list.len() == 0 {
        Seq::empty()
    } else if list.len() == 1 {
        list[0]
    } else {
        with_commas(list.drop_last()) + ", "@ + list.last()
    }
}

/// The texts of a list with a comma and a space between them.
pub fn comma_separated(list: &Vec<String>) -> (r: String)
    ensures
        r@ == with_commas(texts(list@)),
{
    let mut r: String = String::new();
    let ghost all = texts(list@);
    let mut i: usize = 0;
    assert(r@ =~= with_commas(all.take(0)));
    while i < list.len()
        invariant
            i <= list@.len(),
            all == texts(list@),
            r@ == with_commas(all.take(i as int)),
        decreases list@.len() - i,
    {
        if i > 0 {
            r.append(", ");
        }
        r.append(list[i].as_str());
        proof {
            assert(all.take(i + 1).drop_last() =~= all.take(i as int));
            assert(all.take(i + 1).last() == list@[i as int]@);
            if i == 0 {
                assert(r@ =~= list@[i as int]@);
            }
        }
        i += 1;
    }
    assert(all.take(i as int) =~= all);
    r
}

/// What paths are shown as.
pub open spec fn shown(paths: Seq<Seq<u8>>) -> Seq<Seq<char>> {
    Seq::new(paths.len(), |i: int| lossy_text(paths[i]))
}

/// The texts that paths are shown as.
pub fn show(paths: &Vec<Vec<u8>>) -> (r: Vec<String>)
    ensures
        texts(r@) == shown(views(paths@)),
{
    let mut r: Vec<String> = Vec::new();
    let mut i: usize = 0;
    while i < paths.len()
        invariant
            i <= paths@.len(),
            r@.len() == i,
            forall|j: int| 0 <= j < i ==> (#[trigger] r@[j])@ == lossy_text(paths@[j]@),
        decreases paths@.len() - i,
    {
        r.push(lossy(paths[i].as_slice()));
        i += 1;
    }
    assert(texts(r@) =~= shown(views(paths@)));
    r
}

/// Display helper: `a, b, c`.
pub fn join(paths: &Vec<Vec<u8>>) -> (r: String)
    ensures
        r@ == with_commas(shown(views(paths@))),
{
    comma_separated(&show(paths))
}

/// Texts are shown with a comma and a space between any two of them, and nothing else is added.
pub proof fn law_commas_stand_between(a: Seq<Seq<char>>, x: Seq<char>, b: Seq<Seq<char>>)
    ensures
        with_commas(Seq::empty()) == Seq::<char>::empty(),
        with_commas(seq![x]) == x,
        a.len() > 0 && b.len() > 0 ==> with_commas(a + b) == with_commas(a) + ", "@ + with_commas(
            b,
        ),
    decreases b.len(),
{
    if a.len() > 0 && b.len() > 0 {
        assert((a + b).drop_last() =~= a + b.drop_last());
        assert((a + b).last() == b.last());
        if b.len() == 1 {
            assert(a + b.drop_last() =~= a);
        } else {
            law_commas_stand_between(a, x, b.drop_last());
            assert(with_commas(a + b) =~= with_commas(a) + ", "@ + with_commas(b));
        }
    }
}

/// Each path is shown, in order, as the text that it is.
pub proof fn law_each_path_is_shown(paths: Seq<Seq<u8>>, i: int)
    requires
        0 <= i < paths.len(),
    ensures
        shown(paths).len() == paths.len(),
        shown(paths)[i] == lossy_text(paths[i]),
{
}

/// A directory is recreated exactly if something that is skipped lies below it.
pub proof fn law_directories_around_skipped_paths_are_recreated(
    skip: Set<Seq<u8>>,
    dir: Seq<u8>,
    rest: Seq<u8>,
)
    requires
        dir.len() > 0,
    ensures
        skip.contains(dir + seq![0x2fu8] + rest) ==> ancestors_of(skip).contains(dir),
        ancestors_of(skip).contains(dir) ==> exists|p: Seq<u8>| #[trigger]
            skip.contains(p) && dir.push(0x2fu8).is_prefix_of(p),
        !ancestors_of(skip).contains(Seq::<u8>::empty()),
{
    let q = dir + seq![0x2fu8] + rest;
    assert(q[dir.len() as int] == 0x2f);
    assert(q.take(dir.len() as int) =~= dir);
    assert(is_parent(dir, q));
    if ancestors_of(skip).contains(dir) {
        let p = choose|p: Seq<u8>| #[trigger] skip.contains(p) && is_parent(dir, p);
        assert(p.subrange(0, dir.len() as int + 1) =~= dir.push(0x2fu8)) by {
            assert forall|k: int| 0 <= k < dir.len() implies p[k] == dir[k] by {
                assert(p.take(dir.len() as int)[k] == p[k]);
            }
        }
        assert(skip.contains(p) && dir.push(0x2fu8).is_prefix_of(p));
    }
}

} // verus!
