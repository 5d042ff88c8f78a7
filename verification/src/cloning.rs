//! Cloning the selected parts of the source worktree: whole directory trees in one call where
//! nothing inside is skipped.
use vstd::prelude::*;
use vstd::string::*;
use vstd::utf8::*;
use crate::bytes::{copy, views};
use crate::cow::Filesystem;
use crate::path::{
    is_name, is_relative, is_under, join, joined, law_below_means_behind_a_separator,
    lemma_joined_relative, under,
};
use crate::select::Selection;
use crate::text::{lossy, lossy_text, texts};

verus! {

/// What is cloned, and to where.
pub struct Cloner<'a> {
    pub source: &'a [u8],
    pub dest: &'a [u8],
    pub selection: &'a Selection,
}

/// What is cloned, and to where.
pub struct Area {
    pub source: Seq<u8>,
    pub dest: Seq<u8>,
    pub skip: Set<Seq<u8>>,
    pub partial: Set<Seq<u8>>,
}

impl View for Cloner<'_> {
    type V = Area;

    open spec fn view(&self) -> Area {
        Area {
            source: self.source@,
            dest: self.dest@,
            skip: self.selection.skip@,
            partial: self.selection.partial@,
        }
    }
}

/// What is done with an entry of the source worktree.
#[derive(Clone, Copy, Debug, PartialEq, Eq, Structural)]
pub enum Treatment {
    /// It is left out.
    Skip,
    /// It is made anew, and its entries are looked at.
    Recreate,
    /// It is cloned as a whole.
    Clone,
}

/// What is done with the entry with this path.
pub open spec fn treatment_of(area: Area, path: Seq<u8>) -> Treatment {
    if area.skip.contains(path) || is_under(area.dest, joined(area.source, path)) {
        Treatment::Skip
    } else if area.partial.contains(path) {
        Treatment::Recreate
    } else {
        Treatment::Clone
    }
}

/// Why something could not be done.
pub struct Failure {
    /// Cloning cannot work here at all.
    pub unsupported: bool,
    pub message: String,
}

/// Why something could not be done.
pub struct FailureData {
    pub unsupported: bool,
    pub message: Seq<char>,
}

impl View for Failure {
    type V = FailureData;

    open spec fn view(&self) -> FailureData {
        FailureData { unsupported: self.unsupported, message: self.message@ }
    }
}

/// What has to be done next. Paths are relative to the worktrees.
pub enum CloneRequest {
    /// List this directory of the source.
    List(Vec<u8>),
    /// Make this directory in the new worktree, with the permissions of the original.
    MakeDir(Vec<u8>),
    /// Clone this file or tree; where that fails, remove what there is of it.
    Clone(Vec<u8>),
    /// Nothing: it can go on.
    Proceed,
    /// Nothing: it is over.
    Done,
}

/// What has to be done next.
pub enum CloneQuestion {
    List(Seq<u8>),
    MakeDir(Seq<u8>),
    Clone(Seq<u8>),
    Proceed,
    Done,
}

impl View for CloneRequest {
    type V = CloneQuestion;

    open spec fn view(&self) -> CloneQuestion {
        match self {
            CloneRequest::List(p) => CloneQuestion::List(p@),
            CloneRequest::MakeDir(p) => CloneQuestion::MakeDir(p@),
            CloneRequest::Clone(p) => CloneQuestion::Clone(p@),
            CloneRequest::Proceed => CloneQuestion::Proceed,
            CloneRequest::Done => CloneQuestion::Done,
        }
    }
}

/// What came of it.
pub enum CloneAnswer {
    /// The names in the directory.
    Names(Vec<Vec<u8>>),
    /// It is done, or there was nothing to do.
    Done,
    Failed(Failure),
}

/// What came of it.
pub enum CloneTold {
    Names(Seq<Seq<u8>>),
    Done,
    Failed(FailureData),
}

impl View for CloneAnswer {
    type V = CloneTold;

    open spec fn view(&self) -> CloneTold {
        match self {
            CloneAnswer::Names(names) => CloneTold::Names(views(names@)),
            CloneAnswer::Done => CloneTold::Done,
            CloneAnswer::Failed(f) => CloneTold::Failed(f@),
        }
    }
}

/// Where the cloning stands in the directory that it is in.
#[derive(Clone, Copy, Debug, PartialEq, Eq, Structural)]
pub enum CloneStage {
    List,
    Visit,
    MakeDir,
    Clone,
}

/// A directory that the cloning is in, and the names in it that have not been dealt with.
pub struct CloneLevel {
    pub dir: Seq<u8>,
    pub rest: Seq<Seq<u8>>,
}

/// Where the cloning stands.
pub struct ClonePosition {
    /// The directories that it is in, the innermost last.
    pub levels: Seq<CloneLevel>,
    pub stage: CloneStage,
    /// The files and trees that have been cloned.
    pub cloned: Seq<Seq<u8>>,
    pub warnings: Seq<Seq<char>>,
    /// Why it was given up: cloning cannot work at all.
    pub failure: Option<FailureData>,
}

/// Nothing has been cloned.
pub open spec fn clone_start() -> ClonePosition {
    ClonePosition {
        levels: seq![CloneLevel { dir: Seq::empty(), rest: Seq::empty() }],
        stage: CloneStage::List,
        cloned: Seq::empty(),
        warnings: Seq::empty(),
        failure: None,
    }
}

pub open spec fn are_file_names(names: Seq<Seq<u8>>) -> bool {
    forall|i: int| 0 <= i < names.len() ==> is_name(#[trigger] names[i])
}

pub open spec fn is_valid_clone_level(l: CloneLevel) -> bool {
    (l.dir.len() == 0 || is_relative(l.dir)) && are_file_names(l.rest)
}

/// All paths are relative, an entry is there where something is to be done with one, and it was
/// given up only if cloning cannot work at all.
pub open spec fn is_valid_clone(w: ClonePosition) -> bool {
    &&& forall|i: int| 0 <= i < w.levels.len() ==> is_valid_clone_level(#[trigger] w.levels[i])
    &&& (w.stage == CloneStage::MakeDir || w.stage == CloneStage::Clone) && w.levels.len() > 0
        ==> w.levels.last().rest.len() > 0
    &&& w.failure matches Some(f) ==> f.unsupported
}

/// The path of the entry that is next.
pub open spec fn clone_path(w: ClonePosition) -> Seq<u8> {
    joined(w.levels.last().dir, w.levels.last().rest[0])
}

/// What has to be done next.
pub open spec fn clone_question(w: ClonePosition) -> CloneQuestion {
    if w.levels.len() == 0 {
        CloneQuestion::Done
    } else {
        match w.stage {
            CloneStage::List => CloneQuestion::List(w.levels.last().dir),
            CloneStage::Visit => CloneQuestion::Proceed,
            CloneStage::MakeDir => CloneQuestion::MakeDir(clone_path(w)),
            CloneStage::Clone => CloneQuestion::Clone(clone_path(w)),
        }
    }
}

/// What came of it can come of what was to be done.
pub open spec fn clone_fits(w: ClonePosition, told: CloneTold) -> bool {
    match clone_question(w) {
        CloneQuestion::List(_) => match told {
            CloneTold::Names(names) => are_file_names(names),
            CloneTold::Done => false,
            CloneTold::Failed(_) => true,
        },
        CloneQuestion::MakeDir(_) => !(told is Names),
        CloneQuestion::Clone(_) => !(told is Names),
        CloneQuestion::Proceed => told is Done,
        CloneQuestion::Done => false,
    }
}

/// The warning that a file or tree could not be cloned.
pub open spec fn not_cloned(from: Seq<char>, message: Seq<char>) -> Seq<char> {
    "could not clone "@ + from + ": "@ + message
}

/// It goes on with the next entry.
pub open spec fn next_entry(w: ClonePosition) -> ClonePosition {
    let l = w.levels.last();
    ClonePosition {
        levels: w.levels.drop_last().push(CloneLevel { rest: l.rest.drop_first(), ..l }),
        stage: CloneStage::Visit,
        ..w
    }
}

/// Where the cloning stands once something came of what was to be done. It is given up only
/// when cloning cannot work at all; other failures are warnings, since checkout writes whatever
/// is missing.
pub open spec fn clone_answered(area: Area, w: ClonePosition, told: CloneTold) -> ClonePosition {
    let l = w.levels.last();
    match told {
        CloneTold::Names(names) => ClonePosition {
            levels: w.levels.drop_last().push(CloneLevel { rest: names, ..l }),
            stage: CloneStage::Visit,
            ..w
        },
        CloneTold::Done => match w.stage {
            CloneStage::MakeDir => ClonePosition {
                levels: next_entry(w).levels.push(
                    CloneLevel { dir: clone_path(w), rest: Seq::empty() },
                ),
                stage: CloneStage::List,
                ..w
            },
            CloneStage::Clone => ClonePosition {
                cloned: w.cloned.push(clone_path(w)),
                ..next_entry(w)
            },
            _ => if l.rest.len() == 0 {
                ClonePosition { levels: w.levels.drop_last(), stage: CloneStage::Visit, ..w }
            } else {
                match treatment_of(area, clone_path(w)) {
                    Treatment::Skip => next_entry(w),
                    Treatment::Recreate => ClonePosition { stage: CloneStage::MakeDir, ..w },
                    Treatment::Clone => ClonePosition { stage: CloneStage::Clone, ..w },
                }
            },
        },
        CloneTold::Failed(f) => if f.unsupported {
            ClonePosition {
                levels: Seq::empty(),
                stage: CloneStage::Visit,
                failure: Some(f),
                ..w
            }
        } else if w.stage == CloneStage::List {
            ClonePosition {
                levels: w.levels.drop_last(),
                stage: CloneStage::Visit,
                warnings: w.warnings.push(
                    not_cloned(lossy_text(joined(area.source, l.dir)), f.message),
                ),
                ..w
            }
        } else {
            ClonePosition {
                warnings: w.warnings.push(
                    not_cloned(lossy_text(joined(area.source, clone_path(w))), f.message),
                ),
                ..next_entry(w)
            }
        },
    }
}

struct CloneFrame {
    dir: Vec<u8>,
    names: Vec<Vec<u8>>,
    next: usize,
}

impl CloneFrame {
    spec fn level(&self) -> CloneLevel {
        CloneLevel { dir: self.dir@, rest: views(self.names@).skip(self.next as int) }
    }

    /// The path of the entry that is next.
    fn path(&self) -> (r: Vec<u8>)
        requires
            self.next < self.names@.len(),
        ensures
            r@ == joined(self.dir@, self.level().rest[0]),
    {
        join(self.dir.as_slice(), self.names[self.next].as_slice())
    }
}

spec fn clone_levels(frames: Seq<CloneFrame>) -> Seq<CloneLevel> {
    Seq::new(frames.len(), |i: int| frames[i].level())
}

/// The cloning of the selected parts of a worktree.
pub struct Cloning {
    frames: Vec<CloneFrame>,
    stage: CloneStage,
    cloned: Vec<Vec<u8>>,
    warnings: Vec<String>,
    failure: Option<Failure>,
}

impl View for Cloning {
    type V = ClonePosition;

    closed spec fn view(&self) -> ClonePosition {
        ClonePosition {
            levels: clone_levels(self.frames@),
            stage: self.stage,
            cloned: views(self.cloned@),
            warnings: texts(self.warnings@),
            failure: match self.failure {
                Some(f) => Some(f@),
                None => None,
            },
        }
    }
}

proof fn lemma_clone_levels(frames: Seq<CloneFrame>)
    requires
        frames.len() > 0,
    ensures
        clone_levels(frames).last() == frames.last().level(),
        clone_levels(frames).drop_last() == clone_levels(frames.drop_last()),
{
    assert(clone_levels(frames).drop_last() =~= clone_levels(frames.drop_last()));
}

proof fn lemma_clone_levels_push(frames: Seq<CloneFrame>, f: CloneFrame)
    ensures
        clone_levels(frames.push(f)) == clone_levels(frames).push(f.level()),
{
    assert(clone_levels(frames.push(f)) =~= clone_levels(frames).push(f.level()));
}

/// The warning that a file or tree could not be cloned.
pub fn clone_warning(from: &str, message: &str) -> (r: String)
    ensures
        r@ == not_cloned(from@, message@),
{
    let mut r: String = "could not clone ".to_owned();
    r.append(from);
    r.append(": ");
    r.append(message);
    r
}

impl Cloning {
    pub closed spec fn wf(&self) -> bool {
        is_valid_clone(self@) && forall|i: int|
            0 <= i < self.frames@.len() ==> (#[trigger] self.frames@[i]).next
                <= self.frames@[i].names@.len()
    }

    /// Nothing has been cloned.
    pub fn start() -> (r: Cloning)
        ensures
            r.wf(),
            r@ == clone_start(),
    {
        let mut frames: Vec<CloneFrame> = Vec::new();
        frames.push(CloneFrame { dir: Vec::new(), names: Vec::new(), next: 0 });
        let r = Cloning {
            frames,
            stage: CloneStage::List,
            cloned: Vec::new(),
            warnings: Vec::new(),
            failure: None,
        };
        proof {
            let l = r.frames@[0].level();
            assert(l.rest =~= Seq::<Seq<u8>>::empty());
            assert(l.dir =~= Seq::<u8>::empty());
            assert(r@.levels =~= clone_start().levels);
            assert(r@.cloned =~= Seq::<Seq<u8>>::empty());
            assert(r@.warnings =~= Seq::<Seq<char>>::empty());
        }
        r
    }

    /// What has to be done next.
    pub fn request(&self) -> (r: CloneRequest)
        requires
            self.wf(),
        ensures
            r@ == clone_question(self@),
    {
        if self.frames.len() == 0 {
            return CloneRequest::Done;
        }
        let top: &CloneFrame = &self.frames[self.frames.len() - 1];
        assert(self@.levels.last() == top.level());
        match self.stage {
            CloneStage::List => CloneRequest::List(copy(top.dir.as_slice())),
            CloneStage::Visit => CloneRequest::Proceed,
            CloneStage::MakeDir => CloneRequest::MakeDir(top.path()),
            CloneStage::Clone => CloneRequest::Clone(top.path()),
        }
    }

    /// Goes on with the next entry.
    fn advance(&mut self)
        requires
            old(self).wf(),
            old(self)@.levels.len() > 0,
            old(self)@.levels.last().rest.len() > 0,
        ensures
            final(self).wf(),
            final(self)@ == next_entry(old(self)@),
    {
        let ghost w = self@;
        let ghost frames = self.frames@;
        proof {
            lemma_clone_levels(self.frames@);
            assert(is_valid_clone_level(w.levels[w.levels.len() - 1]));
        }
        if let Some(mut top) = self.frames.pop() {
            let ghost before = top;
            assert(self.frames@ =~= frames.drop_last());
            let size: usize = top.names.len();
            assert(before.level().rest.len() == size - top.next);
            top.next = top.next + 1;
            proof {
                let l = before.level();
                assert(top.level().rest =~= l.rest.drop_first());
                assert forall|i: int| 0 <= i < l.rest.drop_first().len() implies is_name(
                    #[trigger] l.rest.drop_first()[i],
                ) by {
                    assert(l.rest.drop_first()[i] == l.rest[i + 1]);
                }
                lemma_clone_levels_push(self.frames@, top);
            }
            self.frames.push(top);
        }
        self.stage = CloneStage::Visit;
        assert(self@.levels == next_entry(w).levels);
    }
}

impl Cloner<'_> {
    /// What is done with the entry with this path.
    pub fn treatment(&self, path: &[u8]) -> (r: Treatment)
        ensures
            r == treatment_of(self@, path@),
    {
        if self.selection.skip.contains(path) || under(
            self.dest,
            join(self.source, path).as_slice(),
        ) {
            Treatment::Skip
        } else if self.selection.partial.contains(path) {
            Treatment::Recreate
        } else {
            Treatment::Clone
        }
    }

    /// Goes on when something came of what was to be done.
    pub fn answer(&self, cloning: &mut Cloning, answer: CloneAnswer)
        requires
            old(cloning).wf(),
            clone_fits(old(cloning)@, answer@),
        ensures
            final(cloning).wf(),
            final(cloning)@ == clone_answered(self@, old(cloning)@, answer@),
    {
        let ghost w = cloning@;
        let ghost frames = cloning.frames@;
        proof {
            lemma_clone_levels(cloning.frames@);
            assert(is_valid_clone_level(w.levels[w.levels.len() - 1]));
        }
        let top: &CloneFrame = &cloning.frames[cloning.frames.len() - 1];
        assert(top.level().rest.len() == top.names@.len() - top.next);
        match answer {
            CloneAnswer::Names(names) => {
                if let Some(mut top) = cloning.frames.pop() {
                    assert(cloning.frames@ =~= frames.drop_last());
                    top.names = names;
                    top.next = 0;
                    proof {
                        assert(top.level().rest =~= views(names@));
                        lemma_clone_levels_push(cloning.frames@, top);
                    }
                    cloning.frames.push(top);
                }
                cloning.stage = CloneStage::Visit;
            },
            CloneAnswer::Done => match cloning.stage {
                CloneStage::MakeDir => {
                    let dir: Vec<u8> = top.path();
                    proof {
                        lemma_joined_relative(top.dir@, top.level().rest[0]);
                    }
                    cloning.advance();
                    let frame = CloneFrame { dir, names: Vec::new(), next: 0 };
                    proof {
                        assert(frame.level().rest =~= Seq::<Seq<u8>>::empty());
                        lemma_clone_levels_push(cloning.frames@, frame);
                    }
                    cloning.frames.push(frame);
                    cloning.stage = CloneStage::List;
                },
                CloneStage::Clone => {
                    let path: Vec<u8> = top.path();
                    cloning.advance();
                    let ghost list = cloning.cloned@;
                    cloning.cloned.push(path);
                    assert(views(cloning.cloned@) =~= views(list).push(path@));
                },
                _ => {
                    if top.next == top.names.len() {
                        let _ = cloning.frames.pop();
                        assert(cloning.frames@ =~= frames.drop_last());
                        cloning.stage = CloneStage::Visit;
                    } else {
                        match self.treatment(top.path().as_slice()) {
                            Treatment::Skip => {
                                cloning.advance();
                            },
                            Treatment::Recreate => {
                                cloning.stage = CloneStage::MakeDir;
                            },
                            Treatment::Clone => {
                                cloning.stage = CloneStage::Clone;
                            },
                        }
                    }
                },
            },
            CloneAnswer::Failed(f) => {
                if f.unsupported {
                    cloning.frames = Vec::new();
                    cloning.stage = CloneStage::Visit;
                    cloning.failure = Some(f);
                    assert(clone_levels(cloning.frames@) =~= Seq::<CloneLevel>::empty());
                } else {
                    let path: Vec<u8> = if cloning.stage == CloneStage::List {
                        copy(top.dir.as_slice())
                    } else {
                        top.path()
                    };
                    let from: Vec<u8> = join(self.source, path.as_slice());
                    let warning: String = clone_warning(
                        lossy(from.as_slice()).as_str(),
                        f.message.as_str(),
                    );
                    if cloning.stage == CloneStage::List {
                        let _ = cloning.frames.pop();
                        assert(cloning.frames@ =~= frames.drop_last());
                        cloning.stage = CloneStage::Visit;
                    } else {
                        cloning.advance();
                    }
                    let ghost list = cloning.warnings@;
                    cloning.warnings.push(warning);
                    assert(texts(cloning.warnings@) =~= texts(list).push(warning@));
                }
            },
        }
    }
}

/// The warning that a filesystem has no copy-on-write support.
pub open spec fn has_no_support(filesystem: Seq<char>) -> Seq<char> {
    filesystem + " has no copy-on-write support, doing a regular checkout"@
}

/// The warning that the source worktree is on another filesystem.
pub open spec fn is_elsewhere(source: Seq<char>) -> Seq<char> {
    source + " is on another filesystem, doing a regular checkout"@
}

/// Why a filesystem is not even tried, if it is not.
pub fn support_warning(filesystem: &Filesystem) -> (r: Option<String>)
    ensures
        r is Some <==> !filesystem.may_clone,
        r matches Some(warning) ==> warning@ == has_no_support(filesystem.name@),
{
    if filesystem.may_clone {
        return None;
    }
    let mut r: String = "".to_owned();
    r.append(filesystem.name.as_str());
    r.append(" has no copy-on-write support, doing a regular checkout");
    proof {
        reveal_strlit("");
        assert(""@ + filesystem.name@ =~= filesystem.name@);
    }
    Some(r)
}

/// Why nothing is cloned from a source worktree that is shown as `source`, given the devices of
/// the two worktrees, if nothing is.
pub fn device_warning(source: &str, source_device: u64, dest_device: u64) -> (r: Option<String>)
    ensures
        r is Some <==> source_device != dest_device,
        r matches Some(warning) ==> warning@ == is_elsewhere(source@),
{
    if source_device == dest_device {
        return None;
    }
    let mut r: String = "".to_owned();
    r.append(source);
    r.append(" is on another filesystem, doing a regular checkout");
    proof {
        reveal_strlit("");
        assert(""@ + source@ =~= source@);
    }
    Some(r)
}

/// Why nothing is cloned from the source worktree, given the devices of the two worktrees, if
/// nothing is.
pub fn location_warning(source: &[u8], source_device: u64, dest_device: u64) -> (r: Option<String>)
    ensures
        r is Some <==> source_device != dest_device,
        r matches Some(warning) ==> warning@ == is_elsewhere(lossy_text(source@)),
{
    device_warning(lossy(source).as_str(), source_device, dest_device)
}

/// The warning that the cloning was given up.
pub open spec fn given_up(filesystem: Seq<char>, message: Seq<char>) -> Seq<char> {
    "cannot clone on "@ + filesystem + " ("@ + message + "), git writes the remaining files"@
}

/// The warning that the cloning was given up.
pub fn failure_warning(filesystem: &str, message: &str) -> (r: String)
    ensures
        r@ == given_up(filesystem@, message@),
{
    let mut r: String = "cannot clone on ".to_owned();
    r.append(filesystem);
    r.append(" (");
    r.append(message);
    r.append("), git writes the remaining files");
    r
}

/// What came of cloning a worktree.
pub struct Cloned {
    /// How many files and directory trees were cloned.
    pub cloned: usize,
    /// Ignored paths carried over.
    pub carried: Vec<Vec<u8>>,
    /// Ignored paths left behind on purpose.
    pub excluded: Vec<Vec<u8>>,
    pub warnings: Vec<String>,
}

/// All warnings of cloning on a filesystem.
pub open spec fn all_warnings(w: ClonePosition, filesystem: Seq<char>) -> Seq<Seq<char>> {
    match w.failure {
        Some(f) => w.warnings.push(given_up(filesystem, f.message)),
        None => w.warnings,
    }
}

/// `path` or a directory on the way to it has been cloned.
pub open spec fn covers(cloned: Seq<Seq<u8>>, path: Seq<u8>) -> bool {
    exists|i: int| 0 <= i < cloned.len() && is_under(path, #[trigger] cloned[i])
}

/// Those of some paths that have been cloned, by themselves or with a directory on the way.
pub open spec fn carried_over(paths: Seq<Seq<u8>>, cloned: Seq<Seq<u8>>) -> Seq<Seq<u8>> {
    paths.filter(|p: Seq<u8>| covers(cloned, p))
}

/// Whether `path` or a directory on the way to it has been cloned.
fn is_covered(cloned: &Vec<Vec<u8>>, path: &[u8]) -> (r: bool)
    ensures
        r == covers(views(cloned@), path@),
{
    let ghost all = views(cloned@);
    let mut i: usize = 0;
    while i < cloned.len()
        invariant
            i <= cloned@.len(),
            all == views(cloned@),
            forall|j: int| 0 <= j < i ==> !is_under(path@, #[trigger] all[j]),
        decreases cloned@.len() - i,
    {
        assert(all[i as int] == cloned@[i as int]@);
        if under(path, cloned[i].as_slice()) {
            return true;
        }
        i += 1;
    }
    false
}

/// Those of some paths that have been cloned, by themselves or with a directory on the way.
fn keep_covered(paths: &Vec<Vec<u8>>, cloned: &Vec<Vec<u8>>) -> (r: Vec<Vec<u8>>)
    ensures
        views(r@) == carried_over(views(paths@), views(cloned@)),
{
    let mut r: Vec<Vec<u8>> = Vec::new();
    let ghost all = views(paths@);
    let ghost done = views(cloned@);
    let mut i: usize = 0;
    proof {
        reveal(Seq::filter);
        assert(views(r@) =~= carried_over(all.take(0), done));
    }
    while i < paths.len()
        invariant
            i <= paths@.len(),
            all == views(paths@),
            done == views(cloned@),
            views(r@) == carried_over(all.take(i as int), done),
        decreases paths@.len() - i,
    {
        proof {
            reveal(Seq::filter);
            assert(all.take(i + 1).drop_last() =~= all.take(i as int));
            assert(all.take(i + 1).last() == paths@[i as int]@);
        }
        if is_covered(cloned, paths[i].as_slice()) {
            let ghost list = r@;
            let path: Vec<u8> = copy(paths[i].as_slice());
            r.push(path);
            assert(views(r@) =~= views(list).push(path@));
        }
        i += 1;
    }
    assert(all.take(i as int) =~= all);
    r
}

/// What came of cloning a worktree. Of what was selected to be carried, only what has been
/// cloned is carried over.
pub fn clone_worktree(cloning: Cloning, selection: Selection, filesystem: &Filesystem) -> (r:
    Cloned)
    requires
        clone_question(cloning@) is Done,
    ensures
        r.cloned == cloning@.cloned.len(),
        views(r.carried@) == carried_over(views(selection.carried@), cloning@.cloned),
        r.excluded@ == selection.excluded@,
        texts(r.warnings@) == all_warnings(cloning@, filesystem.name@),
{
    let Cloning { cloned, mut warnings, failure, .. } = cloning;
    if let Some(f) = failure {
        let ghost list = warnings@;
        let warning: String = failure_warning(filesystem.name.as_str(), f.message.as_str());
        warnings.push(warning);
        assert(texts(warnings@) =~= texts(list).push(warning@));
    }
    Cloned {
        cloned: cloned.len(),
        carried: keep_covered(&selection.carried, &cloned),
        excluded: selection.excluded,
        warnings,
    }
}

/// What came of a worktree of which nothing is cloned.
pub fn not_cloned_at_all(warning: String) -> (r: Cloned)
    ensures
        r.cloned == 0,
        r.carried@ == Seq::<Vec<u8>>::empty(),
        r.excluded@ == Seq::<Vec<u8>>::empty(),
        r.warnings@ == seq![warning],
{
    let mut warnings: Vec<String> = Vec::new();
    warnings.push(warning);
    assert(warnings@ =~= seq![warning]);
    Cloned { cloned: 0, carried: Vec::new(), excluded: Vec::new(), warnings }
}

/// What has been cloned counts as cloned, what fails does not: the warning says what could not be
/// cloned and why, and the cloning goes on. It is over only if cloning cannot work at all.
pub proof fn law_failures_are_told(area: Area, w: ClonePosition, path: Seq<u8>, f: FailureData)
    requires
        clone_question(w) == CloneQuestion::Clone(path),
    ensures
        clone_answered(area, w, CloneTold::Done).cloned == w.cloned.push(path),
        clone_answered(area, w, CloneTold::Done).warnings == w.warnings,
        clone_answered(area, w, CloneTold::Failed(f)).cloned == w.cloned,
        !f.unsupported ==> {
            let v = clone_answered(area, w, CloneTold::Failed(f));
            &&& v.warnings == w.warnings.push(
                "could not clone "@ + lossy_text(joined(area.source, path)) + ": "@ + f.message,
            )
            &&& v.failure == w.failure
            &&& clone_question(v) == CloneQuestion::Proceed
        },
        f.unsupported ==> {
            let v = clone_answered(area, w, CloneTold::Failed(f));
            &&& v.warnings == w.warnings
            &&& v.failure == Some(f)
            &&& clone_question(v) == CloneQuestion::Done
        },
{
}

/// The warnings are those on what could not be cloned, and at last the one on why the cloning was
/// given up, if it was.
pub proof fn law_all_warnings_are_given(w: ClonePosition, filesystem: Seq<char>)
    ensures
        w.warnings.is_prefix_of(all_warnings(w, filesystem)),
        w.failure is None ==> all_warnings(w, filesystem) == w.warnings,
        w.failure matches Some(f) ==> all_warnings(w, filesystem).len() == w.warnings.len() + 1
            && all_warnings(w, filesystem).last() == "cannot clone on "@ + filesystem + " ("@
            + f.message + "), git writes the remaining files"@,
{
    assert(all_warnings(w, filesystem).subrange(0, w.warnings.len() as int) =~= w.warnings);
}

/// The new worktree and what lies around it is not cloned into itself, whatever was selected; of
/// the rest, what is skipped is left out, what has something skipped below it is made anew, and
/// all else is cloned as a whole.
pub proof fn law_new_worktree_is_not_cloned_into_itself(
    area: Area,
    path: Seq<u8>,
    rest: Seq<u8>,
)
    ensures
        area.dest == joined(area.source, path) ==> treatment_of(area, path) == Treatment::Skip,
        area.dest == joined(area.source, path) + seq![0x2fu8] + rest ==> treatment_of(area, path)
            == Treatment::Skip,
        area.skip.contains(path) ==> treatment_of(area, path) == Treatment::Skip,
        treatment_of(area, path) == Treatment::Recreate ==> area.partial.contains(path),
        treatment_of(area, path) == Treatment::Clone ==> !area.partial.contains(path),
        treatment_of(area, path) == Treatment::Skip && !area.skip.contains(path) && area.dest
            != joined(area.source, path) ==> joined(area.source, path).push(0x2fu8).is_prefix_of(
            area.dest,
        ),
{
    let p = joined(area.source, path);
    law_below_means_behind_a_separator(area.dest, p, rest);
    if is_under(area.dest, p) && area.dest != p {
        assert(area.dest.subrange(0, p.len() as int + 1) =~= p.push(0x2fu8));
    }
}

/// Of what was to be carried, what has been cloned by itself or with a directory on the way is
/// carried over.
pub proof fn law_what_was_cloned_is_carried_over(
    paths: Seq<Seq<u8>>,
    cloned: Seq<Seq<u8>>,
    i: int,
    k: int,
    rest: Seq<u8>,
)
    requires
        0 <= i < paths.len(),
        0 <= k < cloned.len(),
        paths[i] == cloned[k] || paths[i] == cloned[k] + seq![0x2fu8] + rest,
    ensures
        carried_over(paths, cloned).contains(paths[i]),
{
    law_below_means_behind_a_separator(paths[i], cloned[k], rest);
    assert(is_under(paths[i], cloned[k]));
    let keep = |p: Seq<u8>| covers(cloned, p);
    assert(keep(paths[i]));
    lemma_filter_keeps(paths, keep, i);
}

proof fn lemma_filter_keeps(paths: Seq<Seq<u8>>, keep: spec_fn(Seq<u8>) -> bool, i: int)
    requires
        0 <= i < paths.len(),
        keep(paths[i]),
    ensures
        paths.filter(keep).contains(paths[i]),
    decreases paths.len(),
{
    reveal(Seq::filter);
    let init = paths.drop_last();
    let kept = init.filter(keep);
    if i < init.len() {
        lemma_filter_keeps(init, keep, i);
        assert(init[i] == paths[i]);
        let k = kept.index_of(paths[i]);
        assert(paths.filter(keep)[k] == paths[i]);
    } else {
        assert(paths.filter(keep)[kept.len() as int] == paths[i]);
    }
}

/// Whatever fails, if it does not mean that cloning cannot work, all the rest is still cloned:
/// only the entry that could not be cloned or made is passed over, or the directory that could
/// not be listed, and what was to be done around it stays to be done.
pub proof fn law_only_what_fails_is_passed_over(area: Area, w: ClonePosition, f: FailureData)
    requires
        clone_fits(w, CloneTold::Failed(f)),
        is_valid_clone(w),
        !f.unsupported,
    ensures
        ({
            let v = clone_answered(area, w, CloneTold::Failed(f));
            &&& clone_question(w) is List ==> v.levels == w.levels.drop_last()
            &&& clone_question(w) is Clone || clone_question(w) is MakeDir ==> {
                &&& v.levels.len() == w.levels.len()
                &&& v.levels.drop_last() == w.levels.drop_last()
                &&& v.levels.last().dir == w.levels.last().dir
                &&& v.levels.last().rest == w.levels.last().rest.skip(1)
            }
            &&& v.cloned == w.cloned
            &&& v.failure == w.failure
            &&& v.levels.len() > 0 ==> clone_question(v) == CloneQuestion::Proceed
        }),
{
    let v = clone_answered(area, w, CloneTold::Failed(f));
    if clone_question(w) is Clone || clone_question(w) is MakeDir {
        assert(v.levels.drop_last() =~= w.levels.drop_last());
        assert(w.levels.last().rest.drop_first() =~= w.levels.last().rest.skip(1));
    }
}

} // verus!
