//! Filling a fresh worktree: what has to be done, in which order, and what comes of it.
use vstd::prelude::*;
use vstd::string::*;
use vstd::utf8::*;
use crate::bytes::{copy, views};
use crate::cloning::Cloned;
use crate::cow::Filesystem;
use crate::report::{empty_report, optional_view, Report, ReportData};
use crate::smudge::{Tally, TallyData};
use crate::text::{lossy, lossy_text, texts};
use crate::time::Moment;
use crate::worktree::{ensure_fresh, is_fresh};

verus! {

pub struct PopulateOptions {
    /// Worktree to clone files from. Defaults to the main worktree.
    pub from: Option<Vec<u8>>,
    /// Carry ignored files (node_modules, build caches, ...) from the source worktree.
    pub include_ignored: bool,
}

/// What has to be done next to fill a worktree.
#[derive(Clone, Copy, Debug, PartialEq, Eq, Structural)]
pub enum Phase {
    /// Find the canonical path of the worktree.
    Resolve,
    /// Open it as a repository.
    Open,
    /// List it.
    List,
    /// Read `cow.carryIgnored`, where ignored files are to be carried.
    Config,
    /// Find the main worktree.
    FindMain,
    /// Find the canonical path of the source worktree.
    ResolveSource,
    /// See whether there is a commit to check out.
    FindHead,
    /// See what filesystem the worktree is on.
    Detect,
    /// Take a snapshot of the index of the source worktree, before cloning, so that files that
    /// change during the clone don't get trusted.
    Capture,
    /// Clone the source worktree.
    Clone,
    /// Read the clock after cloning.
    ClockAfterClone,
    /// Load the tree of the commit into the index.
    ReadTree,
    /// Empty the directories of submodules.
    ResetSubmodules,
    /// Take over stat data from the snapshot.
    ReuseStat,
    /// Hash the files whose stat data is unknown.
    Hash,
    /// See whether git-lfs is used.
    FindLfs,
    /// Keep cloned git-lfs files that match their pointers.
    AcceptLfs,
    /// Write the index.
    WriteIndex,
    /// Force checkout of the index.
    Checkout,
    /// Fill git-lfs files from the local store.
    SmudgeLfs,
    /// Read the clock after filling them.
    ClockAfterSmudge,
    /// Write the index again.
    WriteIndexAgain,
    /// Wait until the second of the last clone is over.
    Wait,
    /// Make the worktree fresh again, so that a regular checkout can take over.
    Cleanup,
    /// Nothing: it is over, and the worktree is filled.
    Filled,
    /// Nothing: it is over, and the worktree is not filled.
    Refused,
}

/// What came of it.
pub enum News {
    /// The canonical path.
    Resolved(Vec<u8>),
    /// Whether it is a linked worktree.
    Opened(bool),
    /// The names in it.
    Names(Vec<Vec<u8>>),
    /// `cow.carryIgnored`, if it is set.
    CarryIgnored(Option<bool>),
    /// The main worktree; bare repositories have none.
    Main(Option<Vec<u8>>),
    /// Whether there is a commit; an unborn branch (`--orphan`) has none.
    Head(bool),
    Detected(Filesystem),
    /// Whether there is a snapshot.
    Captured(bool),
    Cloned(Cloned),
    Clock(Moment),
    /// How many index entries got their stat data from the snapshot.
    Reused(usize),
    /// Whether git-lfs is used.
    UsesLfs(bool),
    /// How many files git had to write.
    CheckedOut(usize),
    /// What came of the git-lfs files.
    Counted(Tally),
    Done,
    Failed(String),
}

/// What came of it.
pub enum NewsData {
    Resolved(Seq<u8>),
    Opened(bool),
    Names(Seq<Seq<u8>>),
    CarryIgnored(Option<bool>),
    Main(Option<Seq<u8>>),
    Head(bool),
    Detected(Seq<char>),
    Captured(bool),
    Cloned { cloned: nat, carried: Seq<Seq<u8>>, excluded: Seq<Seq<u8>>, warnings: Seq<Seq<char>> },
    Clock(Moment),
    Reused(nat),
    UsesLfs(bool),
    CheckedOut(nat),
    Counted(TallyData),
    Done,
    Failed(Seq<char>),
}

impl View for News {
    type V = NewsData;

    open spec fn view(&self) -> NewsData {
        match self {
            News::Resolved(p) => NewsData::Resolved(p@),
            News::Opened(b) => NewsData::Opened(*b),
            News::Names(names) => NewsData::Names(views(names@)),
            News::CarryIgnored(b) => NewsData::CarryIgnored(*b),
            News::Main(p) => NewsData::Main(optional_view(*p)),
            News::Head(b) => NewsData::Head(*b),
            News::Detected(fs) => NewsData::Detected(fs.name@),
            News::Captured(b) => NewsData::Captured(*b),
            News::Cloned(c) => NewsData::Cloned {
                cloned: c.cloned as nat,
                carried: views(c.carried@),
                excluded: views(c.excluded@),
                warnings: texts(c.warnings@),
            },
            News::Clock(m) => NewsData::Clock(*m),
            News::Reused(n) => NewsData::Reused(*n as nat),
            News::UsesLfs(b) => NewsData::UsesLfs(*b),
            News::CheckedOut(n) => NewsData::CheckedOut(*n as nat),
            News::Counted(t) => NewsData::Counted(t@),
            News::Done => NewsData::Done,
            News::Failed(text) => NewsData::Failed(text@),
        }
    }
}

/// How the filling of a worktree stands.
pub struct JobData {
    pub phase: Phase,
    /// The worktree as it was named.
    pub given: Seq<u8>,
    /// The source worktree as it was named or found.
    pub from: Option<Seq<u8>>,
    pub include_ignored: bool,
    /// There is a snapshot of the source.
    pub snapshot: bool,
    pub uses_lfs: bool,
    /// When the last file keeping an old mtime (clone or LFS object) was written.
    pub last_old_mtime: Option<Moment>,
    /// Why the worktree is not filled.
    pub error: Seq<char>,
    pub report: ReportData,
}

/// Nothing has been done.
pub open spec fn job_start(path: Seq<u8>, from: Option<Seq<u8>>, include_ignored: bool) -> JobData {
    JobData {
        phase: Phase::Resolve,
        given: path,
        from,
        include_ignored,
        snapshot: false,
        uses_lfs: false,
        last_old_mtime: None,
        error: Seq::empty(),
        report: empty_report(),
    }
}

/// Files of the worktree may have been written.
pub open spec fn is_filling(phase: Phase) -> bool {
    match phase {
        Phase::Detect => true,
        Phase::Capture => true,
        Phase::Clone => true,
        Phase::ClockAfterClone => true,
        Phase::ReadTree => true,
        Phase::ResetSubmodules => true,
        Phase::ReuseStat => true,
        Phase::Hash => true,
        Phase::FindLfs => true,
        Phase::AcceptLfs => true,
        Phase::WriteIndex => true,
        Phase::Checkout => true,
        Phase::SmudgeLfs => true,
        Phase::ClockAfterSmudge => true,
        Phase::WriteIndexAgain => true,
        _ => false,
    }
}

/// What came of it can come of what was to be done.
pub open spec fn job_fits(phase: Phase, news: NewsData) -> bool {
    match phase {
        Phase::Resolve => news is Resolved || news is Failed,
        Phase::Open => news is Opened || news is Failed,
        Phase::List => news is Names || news is Failed,
        Phase::Config => news is CarryIgnored || news is Failed,
        Phase::FindMain => news is Main || news is Failed,
        Phase::ResolveSource => news is Resolved || news is Failed,
        Phase::FindHead => news is Head,
        Phase::Detect => news is Detected || news is Failed,
        Phase::Capture => news is Captured,
        Phase::Clone => news is Cloned || news is Failed,
        Phase::ClockAfterClone => news is Clock,
        Phase::ReadTree => news is Done || news is Failed,
        Phase::ResetSubmodules => news is Done || news is Failed,
        Phase::ReuseStat => news is Reused,
        Phase::Hash => news is Done || news is Failed,
        Phase::FindLfs => news is UsesLfs,
        Phase::AcceptLfs => news is Counted || news is Failed,
        Phase::WriteIndex => news is Done || news is Failed,
        Phase::Checkout => news is CheckedOut || news is Failed,
        Phase::SmudgeLfs => news is Counted || news is Failed,
        Phase::ClockAfterSmudge => news is Clock,
        Phase::WriteIndexAgain => news is Done || news is Failed,
        Phase::Wait => news is Done,
        Phase::Cleanup => news is Done,
        Phase::Filled => false,
        Phase::Refused => false,
    }
}

/// Why a worktree is not one, if `path` is shown like this.
pub open spec fn not_linked(path: Seq<char>) -> Seq<char> {
    path + " is not a linked worktree"@
}

/// Why a worktree that has files is refused, if `path` is shown like this.
pub open spec fn not_fresh(path: Seq<char>) -> Seq<char> {
    path + " is not a fresh worktree (create it with `git worktree add --no-checkout`)"@
}

/// Why something failed, and with what.
pub open spec fn because(what: Seq<char>, path: Seq<char>, text: Seq<char>) -> Seq<char> {
    what + path + ": "@ + text
}

/// The error when a path cannot be found or a step fails.
pub open spec fn error_of(j: JobData, text: Seq<char>) -> Seq<char> {
    match j.phase {
        Phase::Resolve => because("invalid worktree "@, lossy_text(j.given), text),
        Phase::ResolveSource => because(
            "invalid --from "@,
            match j.from {
                Some(p) => lossy_text(p),
                None => Seq::empty(),
            },
            text,
        ),
        _ => text,
    }
}

/// How the source worktree is found: the one that was named, or the main worktree.
pub open spec fn source_phase(j: JobData) -> Phase {
    if j.from is Some {
        Phase::ResolveSource
    } else {
        Phase::FindMain
    }
}

/// How it stands once something came of what was to be done.
pub open spec fn job_told(j: JobData, news: NewsData) -> JobData {
    let path = lossy_text(j.report.path);
    match news {
        NewsData::Resolved(p) => if j.phase == Phase::Resolve {
            JobData { report: ReportData { path: p, ..j.report }, phase: Phase::Open, ..j }
        } else {
            JobData {
                report: ReportData { source: Some(p), ..j.report },
                phase: Phase::FindHead,
                ..j
            }
        },
        NewsData::Opened(linked) => if linked {
            JobData { phase: Phase::List, ..j }
        } else {
            JobData { phase: Phase::Refused, error: not_linked(path), ..j }
        },
        NewsData::Names(names) => if is_fresh(names) {
            JobData {
                phase: if j.include_ignored {
                    Phase::Config
                } else {
                    source_phase(j)
                },
                ..j
            }
        } else {
            JobData { phase: Phase::Refused, error: not_fresh(path), ..j }
        },
        NewsData::CarryIgnored(carry) => JobData {
            include_ignored: j.include_ignored && carry != Some(false),
            phase: source_phase(j),
            ..j
        },
        NewsData::Main(main) => JobData {
            from: main,
            phase: if main is Some {
                Phase::ResolveSource
            } else {
                Phase::FindHead
            },
            ..j
        },
        NewsData::Head(there) => JobData {
            phase: if there {
                Phase::Detect
            } else {
                Phase::Filled
            },
            ..j
        },
        NewsData::Detected(name) => JobData {
            report: ReportData { filesystem: name, ..j.report },
            phase: if j.report.source is Some {
                Phase::Capture
            } else {
                Phase::ReadTree
            },
            ..j
        },
        NewsData::Captured(there) => JobData { snapshot: there, phase: Phase::Clone, ..j },
        NewsData::Cloned { cloned, carried, excluded, warnings } => JobData {
            report: ReportData {
                cloned,
                carried,
                excluded,
                warnings: j.report.warnings + warnings,
                ..j.report
            },
            phase: if cloned > 0 {
                Phase::ClockAfterClone
            } else {
                Phase::ReadTree
            },
            ..j
        },
        NewsData::Clock(now) => JobData {
            last_old_mtime: Some(now),
            phase: if j.phase == Phase::ClockAfterClone {
                Phase::ReadTree
            } else {
                Phase::WriteIndexAgain
            },
            ..j
        },
        NewsData::Reused(n) => JobData {
            report: ReportData { stat_reused: n, ..j.report },
            phase: Phase::Hash,
            ..j
        },
        NewsData::UsesLfs(uses_lfs) => JobData {
            uses_lfs,
            phase: if uses_lfs {
                Phase::AcceptLfs
            } else {
                Phase::WriteIndex
            },
            ..j
        },
        NewsData::CheckedOut(n) => JobData {
            report: ReportData { rewritten: n, ..j.report },
            phase: if j.uses_lfs {
                Phase::SmudgeLfs
            } else {
                Phase::WriteIndexAgain
            },
            ..j
        },
        NewsData::Counted(t) => if j.phase == Phase::AcceptLfs {
            JobData {
                report: ReportData { lfs_cloned: t.kept.len(), ..j.report },
                phase: Phase::WriteIndex,
                ..j
            }
        } else {
            JobData {
                report: ReportData {
                    lfs_smudged: t.smudged.len(),
                    lfs_missing: t.missing,
                    lfs_corrupt: t.corrupt,
                    lfs_unsupported: t.unsupported,
                    ..j.report
                },
                phase: if t.smudged.len() > 0 {
                    Phase::ClockAfterSmudge
                } else {
                    Phase::WriteIndexAgain
                },
                ..j
            }
        },
        NewsData::Done => JobData {
            phase: match j.phase {
                Phase::ReadTree => Phase::ResetSubmodules,
                Phase::ResetSubmodules => if j.snapshot && j.report.cloned > 0 {
                    Phase::ReuseStat
                } else {
                    Phase::Hash
                },
                Phase::Hash => Phase::FindLfs,
                Phase::WriteIndex => Phase::Checkout,
                Phase::WriteIndexAgain => if j.last_old_mtime is Some {
                    Phase::Wait
                } else {
                    Phase::Filled
                },
                Phase::Wait => Phase::Filled,
                _ => Phase::Refused,
            },
            ..j
        },
        NewsData::Failed(text) => JobData {
            error: error_of(j, text),
            phase: if is_filling(j.phase) {
                Phase::Cleanup
            } else {
                Phase::Refused
            },
            ..j
        },
    }
}

/// The filling of a worktree.
pub struct Job {
    phase: Phase,
    given: Vec<u8>,
    from: Option<Vec<u8>>,
    include_ignored: bool,
    snapshot: bool,
    uses_lfs: bool,
    last_old_mtime: Option<Moment>,
    error: String,
    report: Report,
}

impl View for Job {
    type V = JobData;

    closed spec fn view(&self) -> JobData {
        JobData {
            phase: self.phase,
            given: self.given@,
            from: optional_view(self.from),
            include_ignored: self.include_ignored,
            snapshot: self.snapshot,
            uses_lfs: self.uses_lfs,
            last_old_mtime: self.last_old_mtime,
            error: self.error@,
            report: self.report@,
        }
    }
}

/// Why a worktree is not one, if its path is shown as `path`.
pub fn not_linked_error(path: &str) -> (r: String)
    ensures
        r@ == not_linked(path@),
{
    let mut r: String = path.to_owned();
    r.append(" is not a linked worktree");
    r
}

/// Why a worktree that has files is refused, if its path is shown as `path`.
pub fn not_fresh_error(path: &str) -> (r: String)
    ensures
        r@ == not_fresh(path@),
{
    let mut r: String = path.to_owned();
    r.append(" is not a fresh worktree (create it with `git worktree add --no-checkout`)");
    r
}

/// Why something failed, and with what.
pub fn with_context(what: &str, path: &str, text: &str) -> (r: String)
    ensures
        r@ == because(what@, path@, text@),
{
    let mut r: String = what.to_owned();
    r.append(path);
    r.append(": ");
    r.append(text);
    r
}

/// Fill the fresh worktree at `path` (containing only its `.git` file). On error the worktree is
/// reset to that fresh state, so a regular checkout can take over.
pub fn populate(path: &[u8], opts: &PopulateOptions) -> (r: Job)
    ensures
        r@ == job_start(path@, optional_view(opts.from), opts.include_ignored),
{
    let from: Option<Vec<u8>> = match &opts.from {
        Some(p) => Some(copy(p.as_slice())),
        None => None,
    };
    let error: String = String::new();
    assert(error@ =~= Seq::<char>::empty());
    Job {
        phase: Phase::Resolve,
        given: copy(path),
        from,
        include_ignored: opts.include_ignored,
        snapshot: false,
        uses_lfs: false,
        last_old_mtime: None,
        error,
        report: Report::default(),
    }
}

impl Job {
    /// What has to be done next.
    pub fn phase(&self) -> (r: Phase)
        ensures
            r == self@.phase,
    {
        self.phase
    }

    /// What is known of the worktree so far.
    pub fn report(&self) -> (r: &Report)
        ensures
            r@ == self@.report,
    {
        &self.report
    }

    /// The source worktree as it was named or found.
    pub fn from(&self) -> (r: Option<&Vec<u8>>)
        ensures
            r is Some <==> self@.from is Some,
            r matches Some(p) ==> self@.from == Some(p@),
    {
        self.from.as_ref()
    }

    /// Whether ignored files are carried over. Where they are not, checkout removes those that
    /// there are.
    pub fn include_ignored(&self) -> (r: bool)
        ensures
            r == self@.include_ignored,
    {
        self.include_ignored
    }

    /// When the last file keeping an old mtime (clone or LFS object) was written.
    pub fn last_old_mtime(&self) -> (r: Option<Moment>)
        ensures
            r == self@.last_old_mtime,
    {
        self.last_old_mtime
    }

    /// The report on a worktree that is filled, or why it is not.
    pub fn finish(self) -> (r: Result<Report, String>)
        requires
            self@.phase == Phase::Filled || self@.phase == Phase::Refused,
        ensures
            r is Ok <==> self@.phase == Phase::Filled,
            r matches Ok(report) ==> report@ == self@.report,
            r matches Err(text) ==> text@ == self@.error,
    {
        match self.phase {
            Phase::Filled => Ok(self.report),
            _ => Err(self.error),
        }
    }

    /// The error when a path cannot be found or a step fails.
    fn error(&self, text: &str) -> (r: String)
        ensures
            r@ == error_of(self@, text@),
    {
        match self.phase {
            Phase::Resolve => with_context(
                "invalid worktree ",
                lossy(self.given.as_slice()).as_str(),
                text,
            ),
            Phase::ResolveSource => {
                let shown: String = match &self.from {
                    Some(p) => lossy(p.as_slice()),
                    None => String::new(),
                };
                assert(self.from is None ==> shown@ =~= Seq::<char>::empty());
                with_context("invalid --from ", shown.as_str(), text)
            },
            _ => text.to_owned(),
        }
    }

    /// How the source worktree is found.
    fn source_phase(&self) -> (r: Phase)
        ensures
            r == source_phase(self@),
    {
        if self.from.is_some() {
            Phase::ResolveSource
        } else {
            Phase::FindMain
        }
    }

    fn is_filling(&self) -> (r: bool)
        ensures
            r == is_filling(self@.phase),
    {
        match self.phase {
            Phase::Resolve | Phase::Open | Phase::List | Phase::Config | Phase::FindMain => false,
            Phase::ResolveSource | Phase::FindHead | Phase::Wait | Phase::Cleanup => false,
            Phase::Filled | Phase::Refused => false,
            _ => true,
        }
    }

    /// Goes on when something came of what was to be done.
    pub fn told(&mut self, news: News)
        requires
            job_fits(old(self)@.phase, news@),
        ensures
            final(self)@ == job_told(old(self)@, news@),
    {
        match news {
            News::Resolved(p) => {
                if self.phase == Phase::Resolve {
                    self.report.path = p;
                    self.phase = Phase::Open;
                } else {
                    self.report.source = Some(p);
                    self.phase = Phase::FindHead;
                }
            },
            News::Opened(linked) => {
                if linked {
                    self.phase = Phase::List;
                } else {
                    self.error = not_linked_error(lossy(self.report.path.as_slice()).as_str());
                    self.phase = Phase::Refused;
                }
            },
            News::Names(names) => {
                if ensure_fresh(&names) {
                    self.phase = if self.include_ignored {
                        Phase::Config
                    } else {
                        self.source_phase()
                    };
                } else {
                    self.error = not_fresh_error(lossy(self.report.path.as_slice()).as_str());
                    self.phase = Phase::Refused;
                }
            },
            News::CarryIgnored(carry) => {
                let allowed: bool = match carry {
                    Some(b) => b,
                    None => true,
                };
                self.include_ignored = self.include_ignored && allowed;
                self.phase = self.source_phase();
            },
            News::Main(main) => {
                self.phase = if main.is_some() {
                    Phase::ResolveSource
                } else {
                    Phase::FindHead
                };
                self.from = main;
            },
            News::Head(there) => {
                self.phase = if there {
                    Phase::Detect
                } else {
                    Phase::Filled
                };
            },
            News::Detected(filesystem) => {
                self.report.filesystem = filesystem.name;
                self.phase = if self.report.source.is_some() {
                    Phase::Capture
                } else {
                    Phase::ReadTree
                };
            },
            News::Captured(there) => {
                self.snapshot = there;
                self.phase = Phase::Clone;
            },
            News::Cloned(c) => {
                let ghost before = self.report.warnings@;
                let mut more: Vec<String> = c.warnings;
                self.report.cloned = c.cloned;
                self.report.carried = c.carried;
                self.report.excluded = c.excluded;
                self.report.warnings.append(&mut more);
                assert(texts(self.report.warnings@) =~= texts(before) + texts(c.warnings@));
                self.phase = if c.cloned > 0 {
                    Phase::ClockAfterClone
                } else {
                    Phase::ReadTree
                };
            },
            News::Clock(now) => {
                self.last_old_mtime = Some(now);
                self.phase = if self.phase == Phase::ClockAfterClone {
                    Phase::ReadTree
                } else {
                    Phase::WriteIndexAgain
                };
            },
            News::Reused(n) => {
                self.report.stat_reused = n;
                self.phase = Phase::Hash;
            },
            News::UsesLfs(uses_lfs) => {
                self.uses_lfs = uses_lfs;
                self.phase = if uses_lfs {
                    Phase::AcceptLfs
                } else {
                    Phase::WriteIndex
                };
            },
            News::CheckedOut(n) => {
                self.report.rewritten = n;
                self.phase = if self.uses_lfs {
                    Phase::SmudgeLfs
                } else {
                    Phase::WriteIndexAgain
                };
            },
            News::Counted(t) => {
                if self.phase == Phase::AcceptLfs {
                    self.report.lfs_cloned = t.kept.len();
                    self.phase = Phase::WriteIndex;
                } else {
                    let smudged: usize = t.smudged.len();
                    self.report.lfs_smudged = smudged;
                    self.report.lfs_missing = t.missing;
                    self.report.lfs_corrupt = t.corrupt;
                    self.report.lfs_unsupported = t.unsupported;
                    self.phase = if smudged > 0 {
                        Phase::ClockAfterSmudge
                    } else {
                        Phase::WriteIndexAgain
                    };
                }
            },
            News::Done => {
                self.phase = match self.phase {
                    Phase::ReadTree => Phase::ResetSubmodules,
                    Phase::ResetSubmodules => if self.snapshot && self.report.cloned > 0 {
                        Phase::ReuseStat
                    } else {
                        Phase::Hash
                    },
                    Phase::Hash => Phase::FindLfs,
                    Phase::WriteIndex => Phase::Checkout,
                    Phase::WriteIndexAgain => if self.last_old_mtime.is_some() {
                        Phase::Wait
                    } else {
                        Phase::Filled
                    },
                    Phase::Wait => Phase::Filled,
                    _ => Phase::Refused,
                };
            },
            News::Failed(text) => {
                self.error = self.error(text.as_str());
                self.phase = if self.is_filling() {
                    Phase::Cleanup
                } else {
                    Phase::Refused
                };
            },
        }
    }
}

/// How many steps there can be yet.
pub open spec fn steps_left(phase: Phase) -> nat {
    match phase {
        Phase::Resolve => 23,
        Phase::Open => 22,
        Phase::List => 21,
        Phase::Config => 20,
        Phase::FindMain => 19,
        Phase::ResolveSource => 18,
        Phase::FindHead => 17,
        Phase::Detect => 16,
        Phase::Capture => 15,
        Phase::Clone => 14,
        Phase::ClockAfterClone => 13,
        Phase::ReadTree => 12,
        Phase::ResetSubmodules => 11,
        Phase::ReuseStat => 10,
        Phase::Hash => 9,
        Phase::FindLfs => 8,
        Phase::AcceptLfs => 7,
        Phase::WriteIndex => 6,
        Phase::Checkout => 5,
        Phase::SmudgeLfs => 4,
        Phase::ClockAfterSmudge => 3,
        Phase::WriteIndexAgain => 2,
        Phase::Wait => 1,
        Phase::Cleanup => 1,
        Phase::Filled => 0,
        Phase::Refused => 0,
    }
}

/// Whatever comes of a step, there is less to do after it: nothing is done twice, the snapshot
/// of the source is taken before the clone is made, and the filling of a worktree comes to an
/// end.
pub proof fn law_every_step_leads_on(j: JobData, news: NewsData)
    requires
        job_fits(j.phase, news),
    ensures
        steps_left(job_told(j, news).phase) < steps_left(j.phase),
{
}

/// Whatever fails once files may have been written: the worktree is made fresh again, and then
/// it is refused, for the reason that something failed.
pub proof fn law_failure_leaves_a_fresh_worktree(j: JobData, text: Seq<char>)
    requires
        is_filling(j.phase),
        job_fits(j.phase, NewsData::Failed(text)),
    ensures
        ({
            let cleaning = job_told(j, NewsData::Failed(text));
            &&& cleaning.phase == Phase::Cleanup
            &&& job_fits(cleaning.phase, NewsData::Done)
            &&& job_told(cleaning, NewsData::Done).phase == Phase::Refused
            &&& job_told(cleaning, NewsData::Done).error == text
        }),
{
}

/// No worktree is refused while files may have been written: it is made fresh again first.
pub proof fn law_refused_only_when_fresh(j: JobData, news: NewsData)
    requires
        job_fits(j.phase, news),
        job_told(j, news).phase == Phase::Refused,
    ensures
        !is_filling(j.phase),
{
}

/// How the filling of a worktree stands after all that came of its steps.
pub open spec fn job_after(start: JobData, news: Seq<NewsData>) -> JobData
    decreases news.len(),
{
    if news.len() == 0 {
        start
    } else {
        job_told(job_after(start, news.drop_last()), news.last())
    }
}

/// Each piece of news can come of what was to be done.
pub open spec fn all_news_fit(start: JobData, news: Seq<NewsData>) -> bool
    decreases news.len(),
{
    news.len() == 0 || all_news_fit(start, news.drop_last()) && job_fits(
        job_after(start, news.drop_last()).phase,
        news.last(),
    )
}

/// A worktree that was begun like this.
pub open spec fn is_start(j: JobData) -> bool {
    j == job_start(j.given, j.from, j.include_ignored)
}

/// Something that keeps its old time of modification has been written.
pub open spec fn keeps_old_mtimes(j: JobData) -> bool {
    j.report.cloned > 0 || j.report.lfs_smudged > 0
}

spec fn is_consistent(j: JobData) -> bool {
    let left = steps_left(j.phase);
    &&& 14 <= left ==> !keeps_old_mtimes(j) && j.last_old_mtime is None
    &&& j.phase == Phase::ClockAfterClone ==> j.report.cloned > 0 && j.report.lfs_smudged == 0
    &&& 4 <= left <= 12 ==> j.report.lfs_smudged == 0 && (j.last_old_mtime is Some
        <==> keeps_old_mtimes(j))
    &&& j.phase == Phase::ReuseStat ==> j.snapshot && j.report.cloned > 0
    &&& j.phase == Phase::ClockAfterSmudge ==> j.report.lfs_smudged > 0
    &&& j.phase == Phase::WriteIndexAgain || j.phase == Phase::Wait || j.phase == Phase::Filled
        ==> (j.last_old_mtime is Some <==> keeps_old_mtimes(j))
    &&& j.phase == Phase::Wait ==> j.last_old_mtime is Some
}

proof fn lemma_consistent(start: JobData, news: Seq<NewsData>)
    requires
        is_start(start),
        all_news_fit(start, news),
    ensures
        is_consistent(job_after(start, news)),
    decreases news.len(),
{
    if news.len() > 0 {
        lemma_consistent(start, news.drop_last());
    }
}

/// Whatever comes of the steps: stat data is taken over only from a snapshot of the source, and
/// only when something was cloned.
pub proof fn law_stat_data_needs_a_snapshot_and_a_clone(start: JobData, news: Seq<NewsData>)
    requires
        is_start(start),
        all_news_fit(start, news),
        job_after(start, news).phase == Phase::ReuseStat,
    ensures
        job_after(start, news).snapshot,
        job_after(start, news).report.cloned > 0,
{
    lemma_consistent(start, news);
}

/// Whatever comes of the steps: when a worktree is filled, the time of the last file that keeps
/// an old time of modification is known exactly if there are such files, and exactly then the
/// last step was to wait for its second.
pub proof fn law_waits_after_clones(start: JobData, news: Seq<NewsData>)
    requires
        is_start(start),
        all_news_fit(start, news),
        job_after(start, news).phase == Phase::Filled,
    ensures
        job_after(start, news).last_old_mtime is Some <==> keeps_old_mtimes(
            job_after(start, news),
        ),
        job_after(start, news.drop_last()).phase == Phase::Wait <==> keeps_old_mtimes(
            job_after(start, news),
        ),
        job_after(start, news.drop_last()).last_old_mtime == job_after(start, news).last_old_mtime,
{
    lemma_consistent(start, news);
    lemma_consistent(start, news.drop_last());
}

/// Whatever comes of the steps: ignored files are carried only if that is wanted and
/// `cow.carryIgnored` does not say otherwise.
pub proof fn law_ignored_files_are_carried_only_if_wanted(
    start: JobData,
    news: Seq<NewsData>,
    i: int,
)
    requires
        all_news_fit(start, news),
        0 <= i < news.len(),
        !start.include_ignored || news[i] == NewsData::CarryIgnored(Some(false)),
    ensures
        !job_after(start, news).include_ignored,
    decreases news.len(),
{
    if i < news.len() - 1 {
        assert(news.drop_last()[i] == news[i]);
        law_ignored_files_are_carried_only_if_wanted(start, news.drop_last(), i);
    } else if !start.include_ignored && news.len() > 1 {
        law_ignored_files_are_carried_only_if_wanted(start, news.drop_last(), 0);
    }
}

/// How the filling of a worktree stood before the piece of news with the number `i`.
pub open spec fn job_before(start: JobData, news: Seq<NewsData>, i: int) -> JobData {
    job_after(start, news.take(i))
}

/// The piece of news with the number `i` came of the step `phase`.
pub open spec fn came_of(start: JobData, news: Seq<NewsData>, i: int, phase: Phase) -> bool {
    0 <= i < news.len() && job_before(start, news, i).phase == phase
}

proof fn lemma_next(start: JobData, news: Seq<NewsData>, i: int)
    requires
        all_news_fit(start, news),
        0 <= i < news.len(),
    ensures
        job_fits(job_before(start, news, i).phase, news[i]),
        job_before(start, news, i + 1) == job_told(job_before(start, news, i), news[i]),
    decreases news.len(),
{
    let init = news.drop_last();
    if i < news.len() - 1 {
        lemma_next(start, init, i);
        assert(init.take(i) =~= news.take(i));
        assert(init.take(i + 1) =~= news.take(i + 1));
        assert(init[i] == news[i]);
    } else {
        assert(news.take(i) =~= init);
        assert(news.take(i + 1) =~= news);
    }
}

/// On the way to a filled worktree nothing fails.
proof fn lemma_way_to_filled(start: JobData, news: Seq<NewsData>, i: int)
    requires
        all_news_fit(start, news),
        job_after(start, news).phase == Phase::Filled,
        0 <= i <= news.len(),
    ensures
        job_before(start, news, news.len() as int) == job_after(start, news),
        job_before(start, news, i).phase == Phase::Filled <==> i == news.len(),
        job_before(start, news, i).phase != Phase::Refused,
        job_before(start, news, i).phase != Phase::Cleanup,
        i < news.len() ==> !(news[i] is Failed),
    decreases news.len() - i,
{
    assert(news.take(news.len() as int) =~= news);
    if i < news.len() {
        lemma_next(start, news, i);
        lemma_way_to_filled(start, news, i + 1);
    }
}

/// From the step on that writes the index for the last time.
proof fn lemma_from_last_index(start: JobData, news: Seq<NewsData>, i: int)
    requires
        all_news_fit(start, news),
        job_after(start, news).phase == Phase::Filled,
        came_of(start, news, i, Phase::WriteIndexAgain),
    ensures
        news[i] == NewsData::Done,
        job_after(start, news).report == job_before(start, news, i).report,
        job_after(start, news).last_old_mtime == job_before(start, news, i).last_old_mtime,
        job_before(start, news, i).last_old_mtime is None ==> news.len() == i + 1,
        job_before(start, news, i).last_old_mtime is Some ==> news.len() == i + 2 && came_of(
            start,
            news,
            i + 1,
            Phase::Wait,
        ),
{
    lemma_way_to_filled(start, news, i);
    lemma_way_to_filled(start, news, i + 1);
    lemma_next(start, news, i);
    if i + 1 < news.len() {
        lemma_next(start, news, i + 1);
        lemma_way_to_filled(start, news, i + 2);
    }
}

/// What the git-lfs files that were filled from the store add to a report.
pub open spec fn with_smudged(report: ReportData, t: TallyData) -> ReportData {
    ReportData {
        lfs_smudged: t.smudged.len(),
        lfs_missing: t.missing,
        lfs_corrupt: t.corrupt,
        lfs_unsupported: t.unsupported,
        ..report
    }
}

/// From the step on that fills git-lfs files.
proof fn lemma_from_smudge(start: JobData, news: Seq<NewsData>, i: int) -> (again: int)
    requires
        all_news_fit(start, news),
        job_after(start, news).phase == Phase::Filled,
        came_of(start, news, i, Phase::SmudgeLfs),
    ensures
        came_of(start, news, again, Phase::WriteIndexAgain),
        news[i] is Counted,
        job_after(start, news).report == with_smudged(
            job_before(start, news, i).report,
            news[i]->Counted_0,
        ),
        news[i]->Counted_0.smudged.len() == 0 ==> again == i + 1 && job_after(
            start,
            news,
        ).last_old_mtime == job_before(start, news, i).last_old_mtime,
        news[i]->Counted_0.smudged.len() > 0 ==> again == i + 2 && came_of(
            start,
            news,
            i + 1,
            Phase::ClockAfterSmudge,
        ) && news[i + 1] is Clock && job_after(start, news).last_old_mtime == Some(
            news[i + 1]->Clock_0,
        ),
{
    lemma_way_to_filled(start, news, i);
    lemma_next(start, news, i);
    lemma_way_to_filled(start, news, i + 1);
    if news[i]->Counted_0.smudged.len() > 0 {
        lemma_next(start, news, i + 1);
        lemma_way_to_filled(start, news, i + 2);
        lemma_from_last_index(start, news, i + 2);
        i + 2
    } else {
        lemma_from_last_index(start, news, i + 1);
        i + 1
    }
}

/// From the step on that checks the index out: a report is known to that step but for what comes
/// of checking out and of the git-lfs files.
proof fn lemma_from_checkout(start: JobData, news: Seq<NewsData>, i: int) -> (again: int)
    requires
        all_news_fit(start, news),
        job_after(start, news).phase == Phase::Filled,
        came_of(start, news, i, Phase::Checkout),
    ensures
        came_of(start, news, again, Phase::WriteIndexAgain),
        ({
            let before = job_before(start, news, i);
            let j = job_after(start, news);
            let kept = ReportData { rewritten: j.report.rewritten, ..before.report };
            &&& news[i] == NewsData::CheckedOut(j.report.rewritten)
            &&& !before.uses_lfs ==> again == i + 1 && j.report == kept && j.last_old_mtime
                == before.last_old_mtime
            &&& before.uses_lfs ==> again > i + 1 && came_of(start, news, i + 1, Phase::SmudgeLfs)
                && news[i + 1] is Counted && j.report == with_smudged(kept, news[i + 1]->Counted_0)
            &&& before.uses_lfs && j.report.lfs_smudged == 0 ==> again == i + 2 && j.last_old_mtime
                == before.last_old_mtime
            &&& before.uses_lfs && j.report.lfs_smudged > 0 ==> again == i + 3 && came_of(
                start,
                news,
                i + 2,
                Phase::ClockAfterSmudge,
            ) && news[i + 2] is Clock && j.last_old_mtime == Some(news[i + 2]->Clock_0)
        }),
{
    lemma_way_to_filled(start, news, i);
    lemma_next(start, news, i);
    lemma_way_to_filled(start, news, i + 1);
    if job_before(start, news, i).uses_lfs {
        lemma_from_smudge(start, news, i + 1)
    } else {
        lemma_from_last_index(start, news, i + 1);
        i + 1
    }
}

/// From the step on that sees whether git-lfs is used.
proof fn lemma_from_lfs(start: JobData, news: Seq<NewsData>, i: int) -> (r: (int, int))
    requires
        all_news_fit(start, news),
        job_after(start, news).phase == Phase::Filled,
        came_of(start, news, i, Phase::FindLfs),
        job_before(start, news, i).report.lfs_cloned == 0,
    ensures
        came_of(start, news, r.0, Phase::Checkout),
        came_of(start, news, r.0 - 1, Phase::WriteIndex),
        came_of(start, news, r.1, Phase::WriteIndexAgain),
        news[i] is UsesLfs,
        ({
            let before = job_before(start, news, i);
            let j = job_after(start, news);
            let kept = ReportData {
                rewritten: j.report.rewritten,
                lfs_cloned: j.report.lfs_cloned,
                ..before.report
            };
            let (checkout, again) = r;
            &&& news[checkout] == NewsData::CheckedOut(j.report.rewritten)
            &&& news[i] == NewsData::UsesLfs(false) ==> checkout == i + 2 && again == checkout + 1
                && j.report == kept && j.report.lfs_cloned == 0 && j.last_old_mtime
                == before.last_old_mtime
            &&& news[i] == NewsData::UsesLfs(true) ==> checkout == i + 3 && came_of(
                start,
                news,
                i + 1,
                Phase::AcceptLfs,
            ) && news[i + 1] is Counted && j.report.lfs_cloned
                == news[i + 1]->Counted_0.kept.len() && came_of(
                start,
                news,
                checkout + 1,
                Phase::SmudgeLfs,
            ) && news[checkout + 1] is Counted && j.report == with_smudged(
                kept,
                news[checkout + 1]->Counted_0,
            )
            &&& news[i] == NewsData::UsesLfs(true) && j.report.lfs_smudged == 0 ==> again
                == checkout + 2 && j.last_old_mtime == before.last_old_mtime
            &&& news[i] == NewsData::UsesLfs(true) && j.report.lfs_smudged > 0 ==> again
                == checkout + 3 && came_of(start, news, checkout + 2, Phase::ClockAfterSmudge)
                && news[checkout + 2] is Clock && j.last_old_mtime == Some(
                news[checkout + 2]->Clock_0,
            )
        }),
{
    lemma_way_to_filled(start, news, i);
    lemma_next(start, news, i);
    lemma_way_to_filled(start, news, i + 1);
    lemma_next(start, news, i + 1);
    lemma_way_to_filled(start, news, i + 2);
    if news[i] == NewsData::UsesLfs(true) {
        lemma_next(start, news, i + 2);
        lemma_way_to_filled(start, news, i + 3);
        let again = lemma_from_checkout(start, news, i + 3);
        (i + 3, again)
    } else {
        let again = lemma_from_checkout(start, news, i + 2);
        (i + 2, again)
    }
}

/// From the step on that loads the tree of the commit: the step that hashes files.
proof fn lemma_from_read_tree(start: JobData, news: Seq<NewsData>, i: int) -> (hash: int)
    requires
        all_news_fit(start, news),
        job_after(start, news).phase == Phase::Filled,
        came_of(start, news, i, Phase::ReadTree),
    ensures
        came_of(start, news, i + 1, Phase::ResetSubmodules),
        came_of(start, news, hash, Phase::Hash),
        came_of(start, news, hash + 1, Phase::FindLfs),
        ({
            let before = job_before(start, news, i);
            let after = job_before(start, news, hash + 1);
            let reuses = before.snapshot && before.report.cloned > 0;
            &&& !reuses ==> hash == i + 2 && after.report == before.report
            &&& reuses ==> hash == i + 3 && came_of(start, news, i + 2, Phase::ReuseStat) && news[i
                + 2] is Reused && after.report == (ReportData {
                stat_reused: news[i + 2]->Reused_0,
                ..before.report
            })
            &&& after.last_old_mtime == before.last_old_mtime
        }),
{
    lemma_way_to_filled(start, news, i);
    lemma_next(start, news, i);
    lemma_way_to_filled(start, news, i + 1);
    lemma_next(start, news, i + 1);
    lemma_way_to_filled(start, news, i + 2);
    lemma_next(start, news, i + 2);
    lemma_way_to_filled(start, news, i + 3);
    if job_before(start, news, i + 2).phase == Phase::ReuseStat {
        lemma_next(start, news, i + 3);
        lemma_way_to_filled(start, news, i + 4);
        i + 3
    } else {
        i + 2
    }
}

/// From the step on that sees what filesystem the worktree is on: the step that loads the tree
/// of the commit.
proof fn lemma_from_detect(start: JobData, news: Seq<NewsData>, i: int) -> (read_tree: int)
    requires
        all_news_fit(start, news),
        job_after(start, news).phase == Phase::Filled,
        came_of(start, news, i, Phase::Detect),
        job_before(start, news, i).report.warnings.len() == 0,
    ensures
        came_of(start, news, read_tree, Phase::ReadTree),
        news[i] is Detected,
        ({
            let before = job_before(start, news, i);
            let after = job_before(start, news, read_tree);
            let found = ReportData { filesystem: news[i]->Detected_0, ..before.report };
            &&& before.report.source is None ==> read_tree == i + 1 && after == (JobData {
                report: found,
                phase: Phase::ReadTree,
                ..before
            })
            &&& before.report.source is Some ==> came_of(start, news, i + 1, Phase::Capture)
                && news[i + 1] == NewsData::Captured(after.snapshot) && came_of(
                start,
                news,
                i + 2,
                Phase::Clone,
            ) && news[i + 2] is Cloned && after.report == (ReportData {
                cloned: news[i + 2]->cloned,
                carried: news[i + 2]->carried,
                excluded: news[i + 2]->excluded,
                warnings: news[i + 2]->Cloned_warnings,
                ..found
            })
            &&& before.report.source is Some && after.report.cloned == 0 ==> read_tree == i + 3
                && after.last_old_mtime == before.last_old_mtime
            &&& before.report.source is Some && after.report.cloned > 0 ==> read_tree == i + 4
                && came_of(start, news, i + 3, Phase::ClockAfterClone) && news[i + 3] is Clock
                && after.last_old_mtime == Some(news[i + 3]->Clock_0)
        }),
{
    lemma_way_to_filled(start, news, i);
    lemma_next(start, news, i);
    lemma_way_to_filled(start, news, i + 1);
    if job_before(start, news, i).report.source is Some {
        lemma_next(start, news, i + 1);
        lemma_way_to_filled(start, news, i + 2);
        lemma_next(start, news, i + 2);
        lemma_way_to_filled(start, news, i + 3);
        let none = job_before(start, news, i).report.warnings;
        assert(none + news[i + 2]->Cloned_warnings =~= news[i + 2]->Cloned_warnings);
        if news[i + 2]->cloned > 0 {
            lemma_next(start, news, i + 3);
            lemma_way_to_filled(start, news, i + 4);
            i + 4
        } else {
            i + 3
        }
    } else {
        i + 1
    }
}

/// From the beginning: the step that sees whether there is a commit.
proof fn lemma_to_head(start: JobData, news: Seq<NewsData>) -> (head: int)
    requires
        is_start(start),
        all_news_fit(start, news),
        job_after(start, news).phase == Phase::Filled,
    ensures
        came_of(start, news, 0, Phase::Resolve),
        came_of(start, news, 1, Phase::Open),
        came_of(start, news, 2, Phase::List),
        came_of(start, news, head, Phase::FindHead),
        news[0] is Resolved,
        news[1] == NewsData::Opened(true),
        news[2] is Names && is_fresh(news[2]->Names_0),
        news[head] is Head,
        ({
            let j = job_before(start, news, head);
            let config = if start.include_ignored { 3int } else { 2int };
            &&& start.include_ignored ==> came_of(start, news, 3, Phase::Config)
                && news[3] is CarryIgnored && j.include_ignored == (news[3]->CarryIgnored_0
                != Some(false))
            &&& !start.include_ignored ==> !j.include_ignored
            &&& j == (JobData {
                phase: Phase::FindHead,
                include_ignored: j.include_ignored,
                from: j.from,
                report: ReportData {
                    path: news[0]->Resolved_0,
                    source: j.report.source,
                    ..empty_report()
                },
                ..start
            })
            &&& start.from is Some ==> j.from == start.from && head == config + 2 && came_of(
                start,
                news,
                config + 1,
                Phase::ResolveSource,
            ) && news[config + 1] is Resolved && j.report.source == Some(
                news[config + 1]->Resolved_0,
            )
            &&& start.from is None ==> came_of(start, news, config + 1, Phase::FindMain)
                && news[config + 1] == NewsData::Main(j.from)
            &&& start.from is None && j.from is None ==> head == config + 2
                && j.report.source is None
            &&& start.from is None && j.from is Some ==> head == config + 3 && came_of(
                start,
                news,
                config + 2,
                Phase::ResolveSource,
            ) && news[config + 2] is Resolved && j.report.source == Some(
                news[config + 2]->Resolved_0,
            )
        }),
{
    assert(news.take(0) =~= Seq::<NewsData>::empty());
    assert(job_before(start, news, 0) == start);
    lemma_way_to_filled(start, news, 0);
    lemma_next(start, news, 0);
    lemma_way_to_filled(start, news, 1);
    lemma_next(start, news, 1);
    lemma_way_to_filled(start, news, 2);
    lemma_next(start, news, 2);
    lemma_way_to_filled(start, news, 3);
    let config = if start.include_ignored {
        lemma_next(start, news, 3);
        lemma_way_to_filled(start, news, 4);
        3int
    } else {
        2int
    };
    lemma_next(start, news, config + 1);
    lemma_way_to_filled(start, news, config + 2);
    lemma_next(start, news, config + 2);
    if job_before(start, news, config + 2).phase == Phase::FindHead {
        config + 2
    } else {
        lemma_way_to_filled(start, news, config + 3);
        lemma_next(start, news, config + 3);
        config + 3
    }
}

proof fn lemma_leads_on(start: JobData, news: Seq<NewsData>, i: int, k: int)
    requires
        all_news_fit(start, news),
        0 <= i < k <= news.len(),
    ensures
        steps_left(job_before(start, news, k).phase) < steps_left(
            job_before(start, news, i).phase,
        ),
    decreases k - i,
{
    lemma_next(start, news, k - 1);
    law_every_step_leads_on(job_before(start, news, k - 1), news[k - 1]);
    if i < k - 1 {
        lemma_leads_on(start, news, i, k - 1);
    }
}

/// No step is done twice: each comes up at most once.
pub proof fn law_no_step_is_done_twice(
    start: JobData,
    news: Seq<NewsData>,
    i: int,
    k: int,
    phase: Phase,
)
    requires
        all_news_fit(start, news),
        came_of(start, news, i, phase),
        came_of(start, news, k, phase),
    ensures
        i == k,
{
    if i < k {
        lemma_leads_on(start, news, i, k);
    } else if k < i {
        lemma_leads_on(start, news, k, i);
    }
}

/// Which pieces of news came of the steps that fill a worktree.
pub struct Course {
    pub detect: int,
    pub read_tree: int,
    pub hash: int,
    pub checkout: int,
    pub last_index: int,
}

/// A worktree of a branch with a commit is filled step by step, in this order and without
/// leaving one out: the filesystem is looked at, the tree of the commit loaded, submodules
/// emptied, files hashed, git-lfs looked for, the index written, the files checked out, and the
/// index written again. Only the wait may come after that. The filesystem and how many files
/// were written are reported.
pub proof fn law_filled_in_order(start: JobData, news: Seq<NewsData>) -> (c: Course)
    requires
        is_start(start),
        all_news_fit(start, news),
        job_after(start, news).phase == Phase::Filled,
        news.last() != NewsData::Head(false),
    ensures
        c.detect >= 1,
        came_of(start, news, c.detect - 1, Phase::FindHead),
        news[c.detect - 1] == NewsData::Head(true),
        came_of(start, news, c.detect, Phase::Detect),
        news[c.detect] == NewsData::Detected(job_after(start, news).report.filesystem),
        c.detect < c.read_tree,
        came_of(start, news, c.read_tree, Phase::ReadTree),
        came_of(start, news, c.read_tree + 1, Phase::ResetSubmodules),
        c.read_tree + 1 < c.hash,
        came_of(start, news, c.hash, Phase::Hash),
        came_of(start, news, c.hash + 1, Phase::FindLfs),
        c.hash + 2 < c.checkout,
        came_of(start, news, c.checkout - 1, Phase::WriteIndex),
        came_of(start, news, c.checkout, Phase::Checkout),
        news[c.checkout] == NewsData::CheckedOut(job_after(start, news).report.rewritten),
        c.checkout < c.last_index,
        came_of(start, news, c.last_index, Phase::WriteIndexAgain),
        news.len() == c.last_index + if job_after(start, news).last_old_mtime is Some {
            2int
        } else {
            1int
        },
{
    let head = lemma_to_head(start, news);
    lemma_next(start, news, head);
    lemma_way_to_filled(start, news, head);
    lemma_way_to_filled(start, news, head + 1);
    let detect = head + 1;
    let read_tree = lemma_from_detect(start, news, detect);
    let hash = lemma_from_read_tree(start, news, read_tree);
    let (checkout, last_index) = lemma_from_lfs(start, news, hash + 1);
    lemma_from_last_index(start, news, last_index);
    Course { detect, read_tree, hash, checkout, last_index }
}

/// From the source, if there is one, files are cloned: the snapshot of its index is taken right
/// before that, and the clock read right after it if anything was cloned. What was cloned,
/// carried and excluded is reported, with the warnings. Without a source nothing is.
pub proof fn law_filled_from_the_source(start: JobData, news: Seq<NewsData>, c: Course)
    requires
        is_start(start),
        all_news_fit(start, news),
        job_after(start, news).phase == Phase::Filled,
        came_of(start, news, c.detect, Phase::Detect),
        came_of(start, news, c.read_tree, Phase::ReadTree),
    ensures
        ({
            let report = job_after(start, news).report;
            let k = c.detect;
            &&& report.source is None ==> c.read_tree == k + 1 && report.cloned == 0
                && report.carried.len() == 0 && report.excluded.len() == 0
                && report.warnings.len() == 0
            &&& report.source is Some ==> came_of(start, news, k + 1, Phase::Capture) && came_of(
                start,
                news,
                k + 2,
                Phase::Clone,
            ) && news[k + 2] == (NewsData::Cloned {
                cloned: report.cloned,
                carried: report.carried,
                excluded: report.excluded,
                warnings: report.warnings,
            })
            &&& report.source is Some && report.cloned == 0 ==> c.read_tree == k + 3
            &&& report.source is Some && report.cloned > 0 ==> c.read_tree == k + 4 && came_of(
                start,
                news,
                k + 3,
                Phase::ClockAfterClone,
            )
        }),
{
    let head = lemma_to_head(start, news);
    lemma_next(start, news, head);
    lemma_way_to_filled(start, news, head);
    lemma_way_to_filled(start, news, head + 1);
    if head + 1 == news.len() {
        lemma_leads_on(start, news, c.detect, news.len() as int);
        if c.detect < head {
            lemma_leads_on(start, news, c.detect, head);
        }
    }
    let read_tree = lemma_from_detect(start, news, head + 1);
    let hash = lemma_from_read_tree(start, news, read_tree);
    let (checkout, last_index) = lemma_from_lfs(start, news, hash + 1);
    law_no_step_is_done_twice(start, news, c.detect, head + 1, Phase::Detect);
    law_no_step_is_done_twice(start, news, c.read_tree, read_tree, Phase::ReadTree);
}

/// Stat data is taken over from the snapshot, and counted in the report, exactly if there is a
/// snapshot and something was cloned: after submodules were emptied, before files are hashed.
pub proof fn law_stat_data_is_reused(start: JobData, news: Seq<NewsData>, c: Course)
    requires
        is_start(start),
        all_news_fit(start, news),
        job_after(start, news).phase == Phase::Filled,
        came_of(start, news, c.detect, Phase::Detect),
        came_of(start, news, c.read_tree, Phase::ReadTree),
        came_of(start, news, c.hash, Phase::Hash),
    ensures
        ({
            let report = job_after(start, news).report;
            let reuses = report.source is Some && report.cloned > 0 && news[c.detect + 1]
                == NewsData::Captured(true);
            &&& reuses ==> came_of(start, news, c.read_tree + 2, Phase::ReuseStat) && news[c.read_tree
                + 2] == NewsData::Reused(report.stat_reused) && c.hash == c.read_tree + 3
            &&& !reuses ==> c.hash == c.read_tree + 2 && report.stat_reused == 0
        }),
{
    let head = lemma_to_head(start, news);
    lemma_next(start, news, head);
    lemma_way_to_filled(start, news, head);
    lemma_way_to_filled(start, news, head + 1);
    if head + 1 == news.len() {
        lemma_leads_on(start, news, c.detect, news.len() as int);
        if c.detect < head {
            lemma_leads_on(start, news, c.detect, head);
        }
    }
    let read_tree = lemma_from_detect(start, news, head + 1);
    let hash = lemma_from_read_tree(start, news, read_tree);
    let (checkout, last_index) = lemma_from_lfs(start, news, hash + 1);
    law_no_step_is_done_twice(start, news, c.detect, head + 1, Phase::Detect);
    law_no_step_is_done_twice(start, news, c.read_tree, read_tree, Phase::ReadTree);
    law_no_step_is_done_twice(start, news, c.hash, hash, Phase::Hash);
}

/// Where git-lfs is used, cloned files are kept before the index is written and files are filled
/// from the store after checkout has written pointers, and the report has what came of both.
/// The result is the number of the news that came of checking out.
pub proof fn law_lfs_files_are_kept_and_smudged(start: JobData, news: Seq<NewsData>, i: int) -> (
    checkout: int)
    requires
        is_start(start),
        all_news_fit(start, news),
        job_after(start, news).phase == Phase::Filled,
        0 <= i < news.len(),
        news[i] == NewsData::UsesLfs(true),
    ensures
        came_of(start, news, i + 1, Phase::AcceptLfs),
        i + 1 < checkout,
        came_of(start, news, checkout, Phase::Checkout),
        came_of(start, news, checkout + 1, Phase::SmudgeLfs),
        news[i + 1] is Counted,
        news[checkout + 1] is Counted,
        ({
            let report = job_after(start, news).report;
            let kept = news[i + 1]->Counted_0;
            let filled = news[checkout + 1]->Counted_0;
            &&& report.lfs_cloned == kept.kept.len()
            &&& report.lfs_smudged == filled.smudged.len()
            &&& report.lfs_missing == filled.missing
            &&& report.lfs_corrupt == filled.corrupt
            &&& report.lfs_unsupported == filled.unsupported
            &&& filled.smudged.len() > 0 ==> came_of(
                start,
                news,
                checkout + 2,
                Phase::ClockAfterSmudge,
            )
        }),
{
    lemma_next(start, news, i);
    let head = lemma_to_head(start, news);
    lemma_next(start, news, head);
    lemma_way_to_filled(start, news, head);
    lemma_way_to_filled(start, news, head + 1);
    if head + 1 == news.len() {
        lemma_leads_on(start, news, i, news.len() as int);
        if i < head {
            lemma_leads_on(start, news, i, head);
        }
    }
    let read_tree = lemma_from_detect(start, news, head + 1);
    let hash = lemma_from_read_tree(start, news, read_tree);
    let (checkout, last_index) = lemma_from_lfs(start, news, hash + 1);
    law_no_step_is_done_twice(start, news, i, hash + 1, Phase::FindLfs);
    checkout
}

proof fn lemma_without_lfs(start: JobData, news: Seq<NewsData>)
    requires
        is_start(start),
        all_news_fit(start, news),
        !news.contains(NewsData::UsesLfs(true)),
    ensures
        ({
            let j = job_after(start, news);
            &&& !j.uses_lfs
            &&& j.phase != Phase::AcceptLfs
            &&& j.phase != Phase::SmudgeLfs
            &&& j.report.lfs_cloned == 0
            &&& j.report.lfs_smudged == 0
            &&& j.report.lfs_missing.len() == 0
            &&& j.report.lfs_corrupt.len() == 0
            &&& j.report.lfs_unsupported.len() == 0
        }),
    decreases news.len(),
{
    if news.len() > 0 {
        let init = news.drop_last();
        assert(news[news.len() - 1] == news.last());
        if init.contains(NewsData::UsesLfs(true)) {
            let k = init.index_of(NewsData::UsesLfs(true));
            assert(news[k] == init[k]);
        }
        lemma_without_lfs(start, init);
    }
}

/// Where git-lfs is not used, nothing is done about it, and the report says nothing of it.
pub proof fn law_nothing_is_smudged_without_lfs(start: JobData, news: Seq<NewsData>)
    requires
        is_start(start),
        all_news_fit(start, news),
        !news.contains(NewsData::UsesLfs(true)),
    ensures
        job_after(start, news).phase != Phase::AcceptLfs,
        job_after(start, news).phase != Phase::SmudgeLfs,
        job_after(start, news).report.lfs_cloned == 0,
        job_after(start, news).report.lfs_smudged == 0,
        job_after(start, news).report.lfs_missing.len() == 0,
        job_after(start, news).report.lfs_corrupt.len() == 0,
        job_after(start, news).report.lfs_unsupported.len() == 0,
{
    lemma_without_lfs(start, news);
}

/// The worktree is cloned from the one that was named, or else from the main one: that one is
/// looked for only then. A worktree is only filled if it is linked and had nothing but `.git`.
pub proof fn law_source_is_the_named_or_the_main_worktree(start: JobData, news: Seq<NewsData>)
    requires
        is_start(start),
        all_news_fit(start, news),
        job_after(start, news).phase == Phase::Filled,
    ensures
        news[0] == NewsData::Resolved(job_after(start, news).report.path),
        news[1] == NewsData::Opened(true),
        news[2] is Names,
        forall|k: int|
            0 <= k < news[2]->Names_0.len() ==> #[trigger] news[2]->Names_0[k] == encode_utf8(
                ".git"@,
            ),
        start.include_ignored <==> came_of(start, news, 3, Phase::Config),
        ({
            let at = if start.include_ignored { 4int } else { 3int };
            let source = job_after(start, news).report.source;
            &&& start.from is Some ==> came_of(start, news, at, Phase::ResolveSource) && news[at]
                == NewsData::Resolved(source->0) && source is Some
            &&& start.from is None ==> came_of(start, news, at, Phase::FindMain)
                && news[at] is Main
            &&& start.from is None && news[at] == NewsData::Main(None) ==> source is None
            &&& start.from is None && news[at] != NewsData::Main(None) ==> source is Some
                && came_of(start, news, at + 1, Phase::ResolveSource) && news[at + 1]
                == NewsData::Resolved(source->0)
        }),
{
    let head = lemma_to_head(start, news);
    lemma_next(start, news, head);
    lemma_way_to_filled(start, news, head);
    lemma_way_to_filled(start, news, head + 1);
    if !start.include_ignored {
        lemma_next(start, news, 2);
    }
    if head + 1 < news.len() {
        let read_tree = lemma_from_detect(start, news, head + 1);
        let hash = lemma_from_read_tree(start, news, read_tree);
        let (checkout, last_index) = lemma_from_lfs(start, news, hash + 1);
    }
}

/// A branch without a commit has nothing to check out: it is over, and nothing is reported but
/// the two worktrees.
pub proof fn law_unborn_branch_is_left_empty(start: JobData, news: Seq<NewsData>, i: int)
    requires
        is_start(start),
        all_news_fit(start, news),
        0 <= i < news.len(),
        news[i] == NewsData::Head(false),
    ensures
        i == news.len() - 1,
        job_after(start, news).phase == Phase::Filled,
        job_after(start, news).report.cloned == 0,
        job_after(start, news).report.rewritten == 0,
{
    lemma_next(start, news, i);
    if i < news.len() - 1 {
        lemma_next(start, news, i + 1);
    }
    assert(news.take(i + 1) =~= news);
    let head = lemma_to_head(start, news);
    law_no_step_is_done_twice(start, news, i, head, Phase::FindHead);
}

/// Nothing has been written before it is known that there is a commit.
proof fn lemma_filling(start: JobData, news: Seq<NewsData>)
    requires
        is_start(start),
        all_news_fit(start, news),
    ensures
        is_filling(job_after(start, news).phase) ==> news.contains(NewsData::Head(true)),
        news.contains(NewsData::Head(true)) && steps_left(job_after(start, news).phase) > 1
            ==> is_filling(job_after(start, news).phase),
    decreases news.len(),
{
    if news.len() > 0 {
        let init = news.drop_last();
        lemma_filling(start, init);
        assert(news =~= init.push(news.last()));
        if init.contains(NewsData::Head(true)) {
            let k = init.index_of(NewsData::Head(true));
            assert(news[k] == init[k]);
        }
        if news.contains(NewsData::Head(true)) {
            let k = news.index_of(NewsData::Head(true));
            if k < init.len() {
                assert(init[k] == news[k]);
            }
        }
        assert(news[news.len() - 1] == news.last());
    }
}

/// Whatever fails once it is known that there is a commit, the worktree is made fresh again;
/// what fails before that touches nothing.
pub proof fn law_cleaned_up_exactly_if_filling_began(
    start: JobData,
    news: Seq<NewsData>,
    text: Seq<char>,
)
    requires
        is_start(start),
        all_news_fit(start, news.push(NewsData::Failed(text))),
    ensures
        news.contains(NewsData::Head(true)) ==> job_after(
            start,
            news.push(NewsData::Failed(text)),
        ).phase == Phase::Cleanup,
        !news.contains(NewsData::Head(true)) ==> job_after(
            start,
            news.push(NewsData::Failed(text)),
        ).phase == Phase::Refused,
{
    let all = news.push(NewsData::Failed(text));
    assert(all.drop_last() =~= news);
    lemma_filling(start, news);
}

/// A worktree with anything but `.git` in it is refused and not touched; one without is not
/// refused for what is in it.
pub proof fn law_only_fresh_worktrees_are_filled(j: JobData, names: Seq<Seq<u8>>)
    requires
        job_fits(j.phase, NewsData::Names(names)),
    ensures
        job_told(j, NewsData::Names(names)).phase == Phase::Refused <==> exists|k: int|
            0 <= k < names.len() && #[trigger] names[k] != encode_utf8(".git"@),
        !is_filling(job_told(j, NewsData::Names(names)).phase),
{
}

/// What is waited for is the second of the last clock that was read: after cloning, or after
/// filling git-lfs files if that was later. Where no clock was read, nothing is waited for.
pub proof fn law_last_clock_counts(start: JobData, news: Seq<NewsData>, i: int)
    requires
        is_start(start),
        all_news_fit(start, news),
        -1 <= i < news.len(),
        i >= 0 ==> news[i] is Clock,
        forall|k: int| i < k < news.len() ==> !(#[trigger] news[k] is Clock),
    ensures
        i >= 0 ==> job_after(start, news).last_old_mtime == Some(news[i]->Clock_0),
        i < 0 ==> job_after(start, news).last_old_mtime is None,
    decreases news.len(),
{
    if news.len() > 0 && i < news.len() - 1 {
        let init = news.drop_last();
        assert(!(news[news.len() - 1] is Clock));
        assert forall|k: int| i < k < init.len() implies !(#[trigger] init[k] is Clock) by {
            assert(news[k] == init[k]);
        }
        law_last_clock_counts(start, init, i);
    }
}

/// It begins with nothing known but what was asked for.
pub proof fn law_begins_with_what_was_asked_for(
    path: Seq<u8>,
    from: Option<Seq<u8>>,
    include_ignored: bool,
)
    ensures
        ({
            let j = job_start(path, from, include_ignored);
            &&& j.phase == Phase::Resolve
            &&& j.given == path
            &&& j.from == from
            &&& j.include_ignored == include_ignored
            &&& is_start(j)
            &&& j.report.source is None
            &&& j.report.cloned == 0
            &&& j.report.warnings.len() == 0
        }),
{
}

/// Ignored files are carried if that is wanted, unless `cow.carryIgnored` says otherwise.
pub proof fn law_ignored_files_are_carried_unless_configured(
    start: JobData,
    news: Seq<NewsData>,
)
    requires
        all_news_fit(start, news),
        start.include_ignored,
        !news.contains(NewsData::CarryIgnored(Some(false))),
    ensures
        job_after(start, news).include_ignored,
    decreases news.len(),
{
    if news.len() > 0 {
        let init = news.drop_last();
        assert(news[news.len() - 1] == news.last());
        if init.contains(NewsData::CarryIgnored(Some(false))) {
            let k = init.index_of(NewsData::CarryIgnored(Some(false)));
            assert(news[k] == init[k]);
        }
        law_ignored_files_are_carried_unless_configured(start, init);
    }
}

} // verus!
