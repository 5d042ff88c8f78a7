//! What came of filling a worktree, and how it is told.
use vstd::prelude::*;
use vstd::string::*;
use crate::bytes::views;
use crate::number::{decimal, digits_of};
use crate::select::{comma_separated, show, shown, with_commas};
use crate::text::{lossy, lossy_text, texts};

verus! {

#[derive(Debug)]
pub struct Report {
    pub path: Vec<u8>,
    pub source: Option<Vec<u8>>,
    /// Filesystem of the new worktree (apfs, btrfs, xfs, ...).
    pub filesystem: String,
    /// Files and directory trees cloned from the source worktree.
    pub cloned: usize,
    /// Ignored paths carried over from the source (build caches).
    pub carried: Vec<Vec<u8>>,
    /// Ignored paths left behind (virtualenvs, runtime state, `cow.exclude`).
    pub excluded: Vec<Vec<u8>>,
    /// Index entries whose stat data was taken over from the source (no hashing needed).
    pub stat_reused: usize,
    /// Files git had to write because their content differed from HEAD.
    pub rewritten: usize,
    /// git-lfs files kept from the clone after verifying their sha256.
    pub lfs_cloned: usize,
    /// git-lfs files filled from the local LFS object store.
    pub lfs_smudged: usize,
    /// git-lfs files left as pointers because the object isn't downloaded.
    pub lfs_missing: Vec<Vec<u8>>,
    /// git-lfs files left as pointers because the local object is damaged.
    pub lfs_corrupt: Vec<Vec<u8>>,
    /// git-lfs files left as pointers because they use `ext-*` extensions.
    pub lfs_unsupported: Vec<Vec<u8>>,
    pub warnings: Vec<String>,
}

/// What a report says.
pub struct ReportData {
    pub path: Seq<u8>,
    pub source: Option<Seq<u8>>,
    pub filesystem: Seq<char>,
    pub cloned: nat,
    pub carried: Seq<Seq<u8>>,
    pub excluded: Seq<Seq<u8>>,
    pub stat_reused: nat,
    pub rewritten: nat,
    pub lfs_cloned: nat,
    pub lfs_smudged: nat,
    pub lfs_missing: Seq<Seq<u8>>,
    pub lfs_corrupt: Seq<Seq<u8>>,
    pub lfs_unsupported: Seq<Seq<u8>>,
    pub warnings: Seq<Seq<char>>,
}

/// The bytes of a path, if there is one.
pub open spec fn optional_view(path: Option<Vec<u8>>) -> Option<Seq<u8>> {
    match path {
        Some(p) => Some(p@),
        None => None,
    }
}

impl View for Report {
    type V = ReportData;

    open spec fn view(&self) -> ReportData {
        ReportData {
            path: self.path@,
            source: optional_view(self.source),
            filesystem: self.filesystem@,
            cloned: self.cloned as nat,
            carried: views(self.carried@),
            excluded: views(self.excluded@),
            stat_reused: self.stat_reused as nat,
            rewritten: self.rewritten as nat,
            lfs_cloned: self.lfs_cloned as nat,
            lfs_smudged: self.lfs_smudged as nat,
            lfs_missing: views(self.lfs_missing@),
            lfs_corrupt: views(self.lfs_corrupt@),
            lfs_unsupported: views(self.lfs_unsupported@),
            warnings: texts(self.warnings@),
        }
    }
}

/// A report of nothing.
pub open spec fn empty_report() -> ReportData {
    ReportData {
        path: Seq::empty(),
        source: None,
        filesystem: Seq::empty(),
        cloned: 0,
        carried: Seq::empty(),
        excluded: Seq::empty(),
        stat_reused: 0,
        rewritten: 0,
        lfs_cloned: 0,
        lfs_smudged: 0,
        lfs_missing: Seq::empty(),
        lfs_corrupt: Seq::empty(),
        lfs_unsupported: Seq::empty(),
        warnings: Seq::empty(),
    }
}

impl Default for Report {
    fn default() -> (r: Report)
        ensures
            r@ == empty_report(),
    {
        let r = Report {
            path: Vec::new(),
            source: None,
            filesystem: String::new(),
            cloned: 0,
            carried: Vec::new(),
            excluded: Vec::new(),
            stat_reused: 0,
            rewritten: 0,
            lfs_cloned: 0,
            lfs_smudged: 0,
            lfs_missing: Vec::new(),
            lfs_corrupt: Vec::new(),
            lfs_unsupported: Vec::new(),
            warnings: Vec::new(),
        };
        proof {
            assert(r.path@ =~= Seq::<u8>::empty());
            assert(r.filesystem@ =~= Seq::<char>::empty());
            assert(views(r.carried@) =~= Seq::<Seq<u8>>::empty());
            assert(views(r.excluded@) =~= Seq::<Seq<u8>>::empty());
            assert(views(r.lfs_missing@) =~= Seq::<Seq<u8>>::empty());
            assert(views(r.lfs_corrupt@) =~= Seq::<Seq<u8>>::empty());
            assert(views(r.lfs_unsupported@) =~= Seq::<Seq<u8>>::empty());
            assert(texts(r.warnings@) =~= Seq::<Seq<char>>::empty());
        }
        r
    }
}

/// A number as it is written.
pub open spec fn written(n: nat) -> Seq<char> {
    digits_of(n, 10)
}

/// A line that says something on behalf of the program.
pub open spec fn said(text: Seq<char>) -> Seq<char> {
    "git-cow: "@ + text
}

/// A line that says something on behalf of the program.
pub fn say(text: &str) -> (r: String)
    ensures
        r@ == said(text@),
{
    let mut r: String = "git-cow: ".to_owned();
    r.append(text);
    r
}

/// The line on git-lfs files that have a problem, in a worktree shown as `path`.
pub open spec fn problem_text(names: Seq<Seq<char>>, problem: Seq<char>, path: Seq<char>) -> Seq<
    char,
> {
    "git-cow: "@ + written(names.len()) + " git-lfs "@ + problem + " in "@ + path + " ("@
        + with_commas(names) + ")"@
}

/// The line on git-lfs files that have a problem, in a worktree shown as `path`.
pub fn problem_line(names: &Vec<String>, problem: &str, path: &str) -> (r: String)
    ensures
        r@ == problem_text(texts(names@), problem@, path@),
{
    let mut r: String = "git-cow: ".to_owned();
    r.append(decimal(names.len()).as_str());
    r.append(" git-lfs ");
    r.append(problem);
    r.append(" in ");
    r.append(path);
    r.append(" (");
    r.append(comma_separated(names).as_str());
    r.append(")");
    r
}

/// What is said of a worktree at the end.
pub struct Summary<'a> {
    pub filesystem: &'a str,
    pub source: Option<String>,
    pub cloned: usize,
    pub stat_reused: usize,
    pub rewritten: usize,
    pub carried: Vec<String>,
    pub excluded: Vec<String>,
    pub lfs_cloned: usize,
    pub lfs_smudged: usize,
}

/// The line that sums up what was done: where the files come from, if any was cloned, how many
/// had to be written, what was carried and left behind, and the git-lfs files, if any.
pub open spec fn summary_text(
    filesystem: Seq<char>,
    source: Option<Seq<char>>,
    cloned: nat,
    stat_reused: nat,
    rewritten: nat,
    carried: Seq<Seq<char>>,
    excluded: Seq<Seq<char>>,
    lfs_cloned: nat,
    lfs_smudged: nat,
) -> Seq<char> {
    let start = "git-cow: "@ + filesystem + ": "@;
    let from = if source is Some && cloned >= 1 {
        start + "cloned from "@ + source->0 + ", reused stat data for "@ + written(stat_reused)
            + " files, "@
    } else {
        start
    };
    let wrote = from + "wrote "@ + written(rewritten) + " files"@;
    let with_carried = if carried.len() > 0 {
        wrote + "; carried "@ + with_commas(carried)
    } else {
        wrote
    };
    let with_excluded = if excluded.len() > 0 {
        with_carried + "; excluded "@ + with_commas(excluded)
    } else {
        with_carried
    };
    if lfs_cloned + lfs_smudged > 0 {
        with_excluded + "; git-lfs: "@ + written(lfs_cloned) + " kept, "@ + written(lfs_smudged)
            + " from local store"@
    } else {
        with_excluded
    }
}

/// The line that sums up what was done.
pub fn summary_line(s: &Summary) -> (r: String)
    ensures
        r@ == summary_text(
            s.filesystem@,
            match s.source {
                Some(t) => Some(t@),
                None => None,
            },
            s.cloned as nat,
            s.stat_reused as nat,
            s.rewritten as nat,
            texts(s.carried@),
            texts(s.excluded@),
            s.lfs_cloned as nat,
            s.lfs_smudged as nat,
        ),
{
    let mut r: String = "git-cow: ".to_owned();
    r.append(s.filesystem);
    r.append(": ");
    if let Some(source) = &s.source {
        if s.cloned >= 1 {
            r.append("cloned from ");
            r.append(source.as_str());
            r.append(", reused stat data for ");
            r.append(decimal(s.stat_reused).as_str());
            r.append(" files, ");
        }
    }
    r.append("wrote ");
    r.append(decimal(s.rewritten).as_str());
    r.append(" files");
    if s.carried.len() > 0 {
        r.append("; carried ");
        r.append(comma_separated(&s.carried).as_str());
    }
    if s.excluded.len() > 0 {
        r.append("; excluded ");
        r.append(comma_separated(&s.excluded).as_str());
    }
    if s.lfs_cloned > 0 || s.lfs_smudged > 0 {
        r.append("; git-lfs: ");
        r.append(decimal(s.lfs_cloned).as_str());
        r.append(" kept, ");
        r.append(decimal(s.lfs_smudged).as_str());
        r.append(" from local store");
    }
    r
}

/// The lines on warnings.
pub open spec fn warning_lines(warnings: Seq<Seq<char>>) -> Seq<Seq<char>> {
    Seq::new(warnings.len(), |i: int| said(warnings[i]))
}

/// What to do about objects that are not there.
pub open spec fn missing_problem() -> Seq<char> {
    "objects not downloaded, run `git lfs pull`"@
}

/// What to do about objects that are damaged.
pub open spec fn corrupt_problem() -> Seq<char> {
    "local objects damaged, run `git lfs fetch` and `git lfs checkout`"@
}

/// What to do about pointers with extensions.
pub open spec fn unsupported_problem() -> Seq<char> {
    "files use ext-* extensions, run `git lfs checkout`"@
}

/// `lines`, with a line on git-lfs files that have a problem, if there are any.
pub open spec fn with_problem(
    lines: Seq<Seq<char>>,
    paths: Seq<Seq<u8>>,
    problem: Seq<char>,
    path: Seq<u8>,
) -> Seq<Seq<char>> {
    if paths.len() > 0 {
        lines.push(problem_text(shown(paths), problem, lossy_text(path)))
    } else {
        lines
    }
}

/// All that is said of a report: its warnings, the git-lfs files that have problems, and, unless
/// only warnings are wanted, the summary.
pub open spec fn report_text(report: ReportData, quiet: bool) -> Seq<Seq<char>> {
    let warned = warning_lines(report.warnings);
    let a = with_problem(warned, report.lfs_missing, missing_problem(), report.path);
    let b = with_problem(a, report.lfs_corrupt, corrupt_problem(), report.path);
    let c = with_problem(b, report.lfs_unsupported, unsupported_problem(), report.path);
    if quiet {
        c
    } else {
        c.push(
            summary_text(
                report.filesystem,
                match report.source {
                    Some(p) => Some(lossy_text(p)),
                    None => None,
                },
                report.cloned,
                report.stat_reused,
                report.rewritten,
                shown(report.carried),
                shown(report.excluded),
                report.lfs_cloned,
                report.lfs_smudged,
            ),
        )
    }
}

/// Adds a line on git-lfs files that have a problem, if there are any.
fn add_problem(lines: &mut Vec<String>, paths: &Vec<Vec<u8>>, problem: &str, path: &[u8])
    ensures
        texts(final(lines)@) == with_problem(texts(old(lines)@), views(paths@), problem@, path@),
{
    if paths.len() > 0 {
        let names: Vec<String> = show(paths);
        let line: String = problem_line(&names, problem, lossy(path).as_str());
        let ghost list = lines@;
        lines.push(line);
        assert(texts(lines@) =~= texts(list).push(line@));
    }
}

impl Report {
    /// All that is said of the report, line by line.
    pub fn lines(&self, quiet: bool) -> (r: Vec<String>)
        ensures
            texts(r@) == report_text(self@, quiet),
    {
        let mut r: Vec<String> = Vec::new();
        let mut i: usize = 0;
        while i < self.warnings.len()
            invariant
                i <= self.warnings@.len(),
                r@.len() == i,
                forall|j: int|
                    0 <= j < i ==> (#[trigger] r@[j])@ == said(self.warnings@[j]@),
            decreases self.warnings@.len() - i,
        {
            r.push(say(self.warnings[i].as_str()));
            i += 1;
        }
        assert(texts(r@) =~= warning_lines(self@.warnings));
        let path: &[u8] = self.path.as_slice();
        add_problem(
            &mut r,
            &self.lfs_missing,
            "objects not downloaded, run `git lfs pull`",
            path,
        );
        add_problem(
            &mut r,
            &self.lfs_corrupt,
            "local objects damaged, run `git lfs fetch` and `git lfs checkout`",
            path,
        );
        add_problem(
            &mut r,
            &self.lfs_unsupported,
            "files use ext-* extensions, run `git lfs checkout`",
            path,
        );
        if !quiet {
            let summary = Summary {
                filesystem: self.filesystem.as_str(),
                source: match &self.source {
                    Some(p) => Some(lossy(p.as_slice())),
                    None => None,
                },
                cloned: self.cloned,
                stat_reused: self.stat_reused,
                rewritten: self.rewritten,
                carried: show(&self.carried),
                excluded: show(&self.excluded),
                lfs_cloned: self.lfs_cloned,
                lfs_smudged: self.lfs_smudged,
            };
            let line: String = summary_line(&summary);
            let ghost list = r@;
            r.push(line);
            assert(texts(r@) =~= texts(list).push(line@));
        }
        r
    }
}

/// When only warnings are wanted, nothing but the summary is left out.
pub proof fn law_quiet_leaves_out_only_the_summary(report: ReportData)
    ensures
        report_text(report, false).drop_last() == report_text(report, true),
{
    assert(report_text(report, false).drop_last() =~= report_text(report, true));
}

/// Each warning is told first, in order. Then comes one line for each of the three problems that
/// git-lfs files may have, if there are such files, and at last the summary unless only warnings
/// are wanted.
pub proof fn law_everything_is_told(report: ReportData, quiet: bool, i: int)
    ensures
        ({
            let lines = report_text(report, quiet);
            let n = report.warnings.len();
            let missing = if report.lfs_missing.len() > 0 { 1nat } else { 0nat };
            let corrupt = if report.lfs_corrupt.len() > 0 { 1nat } else { 0nat };
            let unsupported = if report.lfs_unsupported.len() > 0 { 1nat } else { 0nat };
            let last = if quiet { 0nat } else { 1nat };
            let path = lossy_text(report.path);
            &&& lines.len() == n + missing + corrupt + unsupported + last
            &&& 0 <= i < n ==> lines[i] == "git-cow: "@ + report.warnings[i]
            &&& missing == 1 ==> lines[n as int] == problem_text(
                shown(report.lfs_missing),
                "objects not downloaded, run `git lfs pull`"@,
                path,
            )
            &&& corrupt == 1 ==> lines[(n + missing) as int] == problem_text(
                shown(report.lfs_corrupt),
                "local objects damaged, run `git lfs fetch` and `git lfs checkout`"@,
                path,
            )
            &&& unsupported == 1 ==> lines[(n + missing + corrupt) as int] == problem_text(
                shown(report.lfs_unsupported),
                "files use ext-* extensions, run `git lfs checkout`"@,
                path,
            )
        }),
{
}

/// The line on a problem says how many files have it, which problem it is, in which worktree, and
/// which files they are.
pub proof fn law_problems_are_told_in_full(
    names: Seq<Seq<char>>,
    problem: Seq<char>,
    path: Seq<char>,
)
    ensures
        problem_text(names, problem, path) == "git-cow: "@ + digits_of(names.len(), 10)
            + " git-lfs "@ + problem + " in "@ + path + " ("@ + with_commas(names) + ")"@,
{
}

/// The summary says where the files come from only if any was cloned, and then how many files
/// kept their stat data. It always says how many were written. What was carried and what was
/// excluded are added if there is any, and so are the git-lfs files.
pub proof fn law_summary_grows_with_what_was_done(
    fs: Seq<char>,
    from: Seq<char>,
    source: Option<Seq<char>>,
    cloned: nat,
    reused: nat,
    wrote: nat,
    carried: Seq<Seq<char>>,
    excluded: Seq<Seq<char>>,
    kept: nat,
    filled: nat,
)
    ensures
        ({
            let none = Seq::<Seq<char>>::empty();
            let bare = summary_text(fs, source, cloned, reused, wrote, none, none, 0, 0);
            let with_carried = summary_text(
                fs,
                source,
                cloned,
                reused,
                wrote,
                carried,
                none,
                0,
                0,
            );
            let with_both = summary_text(
                fs,
                source,
                cloned,
                reused,
                wrote,
                carried,
                excluded,
                0,
                0,
            );
            let whole = summary_text(
                fs,
                source,
                cloned,
                reused,
                wrote,
                carried,
                excluded,
                kept,
                filled,
            );
            &&& source is None || cloned == 0 ==> bare == "git-cow: "@ + fs + ": "@ + "wrote "@
                + digits_of(wrote, 10) + " files"@
            &&& source == Some(from) && cloned > 0 ==> bare == "git-cow: "@ + fs + ": "@
                + "cloned from "@ + from + ", reused stat data for "@ + digits_of(reused, 10)
                + " files, "@ + "wrote "@ + digits_of(wrote, 10) + " files"@
            &&& carried.len() > 0 ==> with_carried == bare + "; carried "@ + with_commas(carried)
            &&& carried.len() == 0 ==> with_carried == bare
            &&& excluded.len() > 0 ==> with_both == with_carried + "; excluded "@ + with_commas(
                excluded,
            )
            &&& excluded.len() == 0 ==> with_both == with_carried
            &&& kept > 0 || filled > 0 ==> whole == with_both + "; git-lfs: "@ + digits_of(kept, 10)
                + " kept, "@ + digits_of(filled, 10) + " from local store"@
            &&& kept == 0 && filled == 0 ==> whole == with_both
        }),
{
}

/// The summary of a report is that of its own numbers and paths.
pub proof fn law_summary_is_of_the_report(report: ReportData)
    ensures
        report_text(report, false).last() == summary_text(
            report.filesystem,
            match report.source {
                Some(p) => Some(lossy_text(p)),
                None => None,
            },
            report.cloned,
            report.stat_reused,
            report.rewritten,
            shown(report.carried),
            shown(report.excluded),
            report.lfs_cloned,
            report.lfs_smudged,
        ),
{
}

} // verus!
