use git_cow::checkouts::Search;
use git_cow::cloning::{CloneAnswer, CloneRequest, Cloner, Cloning};
use git_cow::cow::Filesystem;
use git_cow::lfs::{used_in, Content};
use git_cow::populate::{populate, Job, News, Phase, PopulateOptions};
use git_cow::report::Report;
use git_cow::rules::{ChildFacts, DirFacts, FileKind, Markers, Rules};
use git_cow::select::{Answer, Listed, Request, Selection, Selector, Walk};
use git_cow::smudge::{LfsAnswer, LfsFile, LfsStep, Tally, Verdict};
use git_cow::stat::{FileStat, IndexEntry, IndexTime, SourceSnapshot};
use git_cow::submodule::{submodules, Found, Reset, ResetRequest};
use git_cow::time::Moment;
use git_cow::worktree::reset_to_fresh;
use ignore::gitignore::{Gitignore, GitignoreBuilder};
use sha2::{Digest, Sha256};
use std::collections::{BTreeMap, BTreeSet};

const BIG: usize = 8 * 1024 * 1024;
const SOURCE: &str = "/tmp/t/repo";
const DEST: &str = "/tmp/t/wt";

fn pseudo_random(len: usize, seed: u64) -> Vec<u8> {
    let mut x = seed;
    (0..len)
        .map(|_| {
            x ^= x << 13;
            x ^= x >> 7;
            x ^= x << 17;
            x as u8
        })
        .collect()
}

/// A worktree in memory: paths of files, sockets and links (directories follow from them), the
/// paths in its index, and its `.gitignore`.
#[derive(Clone)]
struct World {
    files: BTreeMap<String, FileKind>,
    indexed: BTreeSet<String>,
    submodules: BTreeSet<String>,
    ignore: Vec<String>,
    include_file: Option<Vec<u8>>,
    exclude: Vec<String>,
    require_include: Option<bool>,
    carry_ignored: Option<bool>,
    /// Directories are listed backwards.
    backwards: bool,
}

impl World {
    fn new(ignore: &[&str]) -> World {
        World {
            files: BTreeMap::new(),
            indexed: BTreeSet::new(),
            submodules: BTreeSet::new(),
            ignore: ignore.iter().map(|l| l.to_string()).collect(),
            include_file: None,
            exclude: Vec::new(),
            require_include: None,
            carry_ignored: None,
            backwards: true,
        }
    }

    fn file(&mut self, path: &str) {
        self.files.insert(path.to_string(), FileKind::File);
    }

    fn track(&mut self, path: &str) {
        self.file(path);
        self.indexed.insert(path.to_string());
    }

    fn include_list(&mut self, text: &str) {
        self.file(".worktreeinclude");
        self.include_file = Some(text.as_bytes().to_vec());
    }

    fn matcher(&self) -> Gitignore {
        let mut builder = GitignoreBuilder::new(SOURCE);
        for line in &self.ignore {
            builder.add_line(None, line).unwrap();
        }
        builder.build().unwrap()
    }

    fn kind(&self, path: &str) -> Option<FileKind> {
        if let Some(kind) = self.files.get(path) {
            return Some(*kind);
        }
        let below = format!("{path}/");
        if self.files.keys().any(|p| p.starts_with(&below)) {
            return Some(FileKind::Directory);
        }
        None
    }

    fn names(&self, dir: &str) -> Vec<String> {
        let below = if dir.is_empty() { String::new() } else { format!("{dir}/") };
        let names: BTreeSet<String> = self
            .files
            .keys()
            .filter_map(|p| p.strip_prefix(below.as_str()))
            .map(|rest| rest.split('/').next().unwrap().to_string())
            .collect();
        // a directory is listed in no particular order
        if self.backwards {
            names.into_iter().rev().collect()
        } else {
            names.into_iter().collect()
        }
    }

    fn markers(&self, dir: &str) -> Markers {
        let is_file = |name: &str| self.kind(&format!("{dir}/{name}")) == Some(FileKind::File);
        Markers {
            pyvenv_cfg: is_file("pyvenv.cfg"),
            cmake_cache: is_file("CMakeCache.txt"),
        }
    }

    fn facts(&self, dir: &str) -> DirFacts {
        DirFacts {
            git: self.kind(&format!("{dir}/.git")).is_some(),
            markers: self.markers(dir),
            children: self
                .names(dir)
                .iter()
                .map(|name| {
                    let child = format!("{dir}/{name}");
                    ChildFacts {
                        is_dir: self.kind(&child) == Some(FileKind::Directory),
                        git_file: self.kind(&format!("{child}/.git")) == Some(FileKind::File),
                        markers: self.markers(&child),
                    }
                })
                .collect(),
            checkouts: self.has_checkouts(dir),
        }
    }

    fn has_checkouts(&self, dir: &str) -> bool {
        let mut search = Search::start(dir.as_bytes());
        while let Some(dir) = search.request() {
            let dir = String::from_utf8(dir).unwrap();
            let entries = self
                .names(&dir)
                .into_iter()
                .map(|name| Listed {
                    kind: self.kind(&format!("{dir}/{name}")).unwrap(),
                    name: name.into_bytes(),
                })
                .collect();
            search.answer(&entries);
        }
        search.found()
    }

    fn snapshot(&self) -> SourceSnapshot {
        let mut entries: Vec<IndexEntry> = self.indexed.iter().map(|p| entry(p, 1)).collect();
        for path in &self.submodules {
            entries.push(IndexEntry { mode: 0o160000, ..entry(path, 1) });
        }
        let stats = entries.iter().map(|_| None).collect();
        SourceSnapshot::capture(SOURCE.as_bytes(), &entries, 1000, &stats)
    }

    fn rules(&self) -> Rules {
        Rules::load(
            SOURCE.as_bytes(),
            &self.exclude,
            self.include_file.as_deref(),
            self.require_include,
        )
    }

    fn select(&self, dest: &str, include_ignored: bool) -> Selection {
        let snapshot = self.snapshot();
        let rules = self.rules();
        let ignored = self.matcher();
        let selector = Selector {
            source: SOURCE.as_bytes(),
            dest: dest.as_bytes(),
            snapshot: &snapshot,
            rules: &rules,
            include_ignored,
        };
        let text = |p: Vec<u8>| String::from_utf8(p).unwrap();
        let join = |dir: &str, name: &str| {
            if dir.is_empty() { name.to_string() } else { format!("{dir}/{name}") }
        };
        let mut walk = Walk::start();
        loop {
            let answer = match walk.request() {
                Request::List(dir) => {
                    let dir = text(dir);
                    Answer::Entries(
                        self.names(&dir)
                            .into_iter()
                            .map(|name| Listed {
                                kind: self.kind(&join(&dir, &name)).unwrap(),
                                name: name.into_bytes(),
                            })
                            .collect(),
                    )
                }
                Request::Ignored(path) => {
                    let path = text(path);
                    let is_dir = self.kind(&path) == Some(FileKind::Directory);
                    Answer::Ignored(
                        ignored.matched_path_or_any_parents(&path, is_dir).is_ignore(),
                    )
                }
                Request::Inspect(path) => Answer::Found(self.facts(&text(path))),
                Request::Proceed => Answer::Nothing,
                Request::Done => return selector.select(walk),
            };
            selector.answer(&mut walk, answer);
        }
    }

    /// Clones what is selected into an empty worktree. Gives the files there, and how many
    /// clones were made.
    fn clone_selected(&self, selection: &Selection) -> (BTreeSet<String>, usize) {
        let cloner = Cloner {
            source: SOURCE.as_bytes(),
            dest: DEST.as_bytes(),
            selection,
        };
        let text = |p: Vec<u8>| String::from_utf8(p).unwrap();
        let mut there = BTreeSet::new();
        let mut count = 0;
        let mut cloning = Cloning::start();
        loop {
            let answer = match cloning.request() {
                CloneRequest::List(dir) => CloneAnswer::Names(
                    self.names(&text(dir)).into_iter().map(String::into_bytes).collect(),
                ),
                CloneRequest::MakeDir(_) => CloneAnswer::Done,
                CloneRequest::Clone(path) => {
                    let path = text(path);
                    let below = format!("{path}/");
                    there.extend(
                        self.files
                            .keys()
                            .filter(|p| **p == path || p.starts_with(&below))
                            .cloned(),
                    );
                    count += 1;
                    CloneAnswer::Done
                }
                CloneRequest::Proceed => CloneAnswer::Done,
                CloneRequest::Done => return (there, count),
            };
            cloner.answer(&mut cloning, answer);
        }
    }
}

fn entry(path: &str, id: u8) -> IndexEntry {
    IndexEntry {
        ctime: IndexTime { seconds: 0, nanoseconds: 0 },
        mtime: IndexTime { seconds: 0, nanoseconds: 0 },
        dev: 0,
        ino: 0,
        mode: 0o100644,
        uid: 0,
        gid: 0,
        file_size: 0,
        id: vec![id; 20],
        flags: 0,
        flags_extended: 0,
        path: path.as_bytes().to_vec(),
    }
}

fn strings(paths: &Vec<Vec<u8>>) -> Vec<String> {
    paths.iter().map(|p| String::from_utf8(p.clone()).unwrap()).collect()
}

fn is_there(there: &BTreeSet<String>, path: &str) -> bool {
    let below = format!("{path}/");
    there.iter().any(|p| p == path || p.starts_with(&below))
}

/// Tracked files, and a dirty / untracked / ignored state in the main worktree.
fn fixture() -> World {
    let mut w = World::new(&["node_modules/"]);
    w.file(".git");
    for path in ["big.bin", ".gitignore", "src/lib.rs", "small.txt"] {
        w.track(path);
    }
    w.file("untracked.txt");
    w.file("node_modules/dep.js");
    w
}

/// Ignored build caches, a virtualenv under an unusual name, runtime files, a nested
/// ignored tmp dir next to tracked files, and untracked scratch.
fn agent_fixture() -> World {
    let mut w = fixture();
    w.ignore = ["node_modules/", "_build/", "env/", "tmp/", "*.sock", "app/cache/"]
        .iter()
        .map(|l| l.to_string())
        .collect();
    w.track("app/big.bin");
    w.file("scratch.txt");
    w.file("_build/dev/app.beam");
    w.file("env/bin/python");
    w.file("env/pyvenv.cfg");
    w.file("tmp/x");
    w.file("app/cache/c");
    w.files.insert("server.sock".to_string(), FileKind::Socket);
    w.files.insert("node_modules/dep.sock".to_string(), FileKind::Socket);
    w
}

#[test]
fn include_ignored_keeps_ignored_files() {
    let w = fixture();
    let selection = w.select(DEST, true);
    let (there, _) = w.clone_selected(&selection);
    assert!(is_there(&there, "node_modules/dep.js"));
    assert!(!is_there(&there, "untracked.txt"));
    assert!(!is_there(&there, ".git"));
    for path in &w.indexed {
        assert!(is_there(&there, path));
    }
}

#[test]
fn carries_build_caches_and_excludes_location_bound_state() {
    let w = agent_fixture();
    let selection = w.select(DEST, true);
    assert_eq!(strings(&selection.carried), ["_build", "app/cache", "node_modules"]);
    assert_eq!(strings(&selection.excluded), ["env", "server.sock", "tmp"]);
    let (there, _) = w.clone_selected(&selection);
    assert!(is_there(&there, "node_modules/dep.js"));
    assert!(!is_there(&there, "env") && !is_there(&there, "tmp"));
    assert!(!is_there(&there, "scratch.txt"));
    assert!(is_there(&there, "_build/dev/app.beam"));
}

#[test]
fn excluded_nested_path_keeps_siblings_cloned() {
    let mut w = agent_fixture();
    w.exclude.push("app/cache".to_string());
    let selection = w.select(DEST, true);
    assert!(strings(&selection.excluded).contains(&"app/cache".to_string()));
    let (there, _) = w.clone_selected(&selection);
    assert!(!is_there(&there, "app/cache"));
    assert!(is_there(&there, "app/big.bin"));
    assert!(selection.partial.contains(b"app"));
}

#[test]
fn cow_exclude_config_adds_and_removes_patterns() {
    let mut w = agent_fixture();
    w.exclude.push("node_modules".to_string());
    w.exclude.push("!tmp".to_string());
    let selection = w.select(DEST, true);
    let (there, _) = w.clone_selected(&selection);
    assert!(!is_there(&there, "node_modules"));
    assert!(is_there(&there, "tmp/x"));
    assert!(strings(&selection.excluded).contains(&"node_modules".to_string()));
}

#[test]
fn no_ignored_skips_all_ignored_files() {
    let w = agent_fixture();
    let selection = w.select(DEST, false);
    assert!(selection.carried.is_empty());
    let (there, _) = w.clone_selected(&selection);
    for path in ["node_modules", "_build", "app/cache", "tmp", "env"] {
        assert!(!is_there(&there, path), "{path}");
    }
    assert!(selection.excluded.is_empty());
    assert_eq!(there, w.indexed);
}

#[test]
fn worktreeinclude_limits_what_is_carried() {
    let mut w = agent_fixture();
    // listing tmp/ overrides the built-in default exclude
    w.include_list("_build/\ntmp/\n");
    let selection = w.select(DEST, true);
    assert_eq!(strings(&selection.carried), ["_build", "tmp"]);
    let (there, _) = w.clone_selected(&selection);
    assert!(!is_there(&there, "node_modules"));
    assert!(is_there(&there, "tmp/x"));
}

#[test]
fn worktreeinclude_can_select_inside_an_ignored_dir() {
    let mut w = agent_fixture();
    w.file("_build/prod/app.beam");
    w.include_list("_build/dev/\n");
    let selection = w.select(DEST, true);
    assert_eq!(strings(&selection.carried), ["_build/dev"]);
    let (there, _) = w.clone_selected(&selection);
    assert!(is_there(&there, "_build/dev/app.beam"));
    assert!(!is_there(&there, "_build/prod"));
}

#[test]
fn worktreeinclude_with_a_wildcard_selects_inside_ignored_dirs() {
    let mut w = agent_fixture();
    w.file("_build/prod/app.beam");
    w.include_list("*/dev/\n");
    assert!(w.rules().include_reaches_into(b"_build"));
    let selection = w.select(DEST, true);
    assert_eq!(strings(&selection.carried), ["_build/dev"]);
    let (there, _) = w.clone_selected(&selection);
    assert!(is_there(&there, "_build/dev/app.beam"));
    assert!(!is_there(&there, "_build/prod"));
}

#[test]
fn require_include_carries_nothing_without_worktreeinclude() {
    let mut w = agent_fixture();
    w.require_include = Some(true);
    let selection = w.select(DEST, true);
    assert!(selection.carried.is_empty(), "{:?}", selection.carried);
    let (there, _) = w.clone_selected(&selection);
    assert!(!is_there(&there, "node_modules"));
}

#[test]
fn nested_worktrees_and_tool_state_are_never_carried() {
    let mut w = agent_fixture();
    w.ignore.push("agents/".to_string());
    w.ignore.push(".worktrees/".to_string());
    w.file("agents/one/.git");
    w.file(".worktrees/two/x");
    w.include_list("agents/\n.worktrees/\n");
    let selection = w.select(DEST, true);
    assert!(selection.carried.is_empty(), "{:?}", selection.carried);
    let excluded = strings(&selection.excluded);
    assert!(excluded.contains(&"agents".to_string()));
    assert!(excluded.contains(&".worktrees".to_string()));
    let (there, _) = w.clone_selected(&selection);
    assert!(!is_there(&there, "agents") && !is_there(&there, ".worktrees"));
}

#[test]
fn nested_checkouts_are_left_out_at_any_depth() {
    let mut w = agent_fixture();
    w.ignore.push("tools/".to_string());
    w.file("tools/bin/run");
    w.file("tools/agents/worktrees/x/.git");
    w.file("tools/agents/worktrees/x/a.txt");
    w.file("tools/agents/state");
    w.file("tools/clones/lib/.git/HEAD");
    w.file("tools/clones/lib/src/lib.rs");
    w.file("tools/clones/notes");
    for list in [None, Some("tools/\n")] {
        if let Some(text) = list {
            w.include_list(text);
        }
        let selection = w.select(DEST, true);
        let carried = strings(&selection.carried);
        let excluded = strings(&selection.excluded);
        for path in ["tools/agents/state", "tools/bin", "tools/clones/notes"] {
            assert!(carried.contains(&path.to_string()), "{carried:?}");
        }
        for path in ["tools/agents/worktrees", "tools/clones/lib"] {
            assert!(excluded.contains(&path.to_string()), "{excluded:?}");
        }
        let (there, _) = w.clone_selected(&selection);
        assert!(!is_there(&there, "tools/agents/worktrees"));
        assert!(!is_there(&there, "tools/clones/lib"));
        assert!(is_there(&there, "tools/bin/run") && is_there(&there, "tools/clones/notes"));
    }
}

#[test]
fn scratch_where_the_index_has_another_kind_is_not_cloned() {
    let mut w = fixture();
    // the index has a directory, the worktree a file
    w.indexed.insert("was_dir/a.txt".to_string());
    w.file("was_dir");
    // the index has a file, the worktree a directory
    w.indexed.insert("was_file".to_string());
    w.file("was_file/scratch.txt");
    let selection = w.select(DEST, true);
    assert!(!strings(&selection.carried).contains(&"was_file".to_string()));
    let (there, _) = w.clone_selected(&selection);
    assert!(!is_there(&there, "was_dir") && !is_there(&there, "was_file"));
    assert!(is_there(&there, "src/lib.rs"));
}

#[test]
fn submodules_are_cloned_with_what_is_in_them() {
    let mut w = fixture();
    w.submodules.insert("vendor/lib".to_string());
    w.file("vendor/lib/.git");
    w.file("vendor/lib/a.c");
    w.file("vendor/scratch");
    let selection = w.select(DEST, true);
    let (there, _) = w.clone_selected(&selection);
    assert!(is_there(&there, "vendor/lib/a.c"));
    assert!(!is_there(&there, "vendor/scratch"));
}

#[test]
fn nothing_is_waited_for_when_nothing_was_cloned() {
    let (report, phases) = fill(&World::new(&[]), true);
    assert_eq!(report.cloned, 0);
    assert!(!phases.contains(&Phase::Wait) && !phases.contains(&Phase::ReuseStat));
    assert_eq!(phases.last(), Some(&Phase::Filled));
}

/// Runs a job on a worktree in memory whose clone and checkout do nothing of note.
fn run(job: &mut Job, w: &World, names: &[&str], fail_in: Option<Phase>) -> Vec<Phase> {
    let mut phases = Vec::new();
    loop {
        let phase = job.phase();
        phases.push(phase);
        if Some(phase) == fail_in {
            job.told(News::Failed("broken".to_string()));
            continue;
        }
        let news = match phase {
            Phase::Resolve => News::Resolved(DEST.as_bytes().to_vec()),
            Phase::Open => News::Opened(true),
            Phase::List => News::Names(names.iter().map(|n| n.as_bytes().to_vec()).collect()),
            Phase::Config => News::CarryIgnored(w.carry_ignored),
            Phase::FindMain => News::Main(Some(SOURCE.as_bytes().to_vec())),
            Phase::ResolveSource => News::Resolved(job.from().unwrap().clone()),
            Phase::FindHead => News::Head(true),
            Phase::Detect => News::Detected(Filesystem { name: "btrfs".into(), may_clone: true }),
            Phase::Capture => News::Captured(true),
            Phase::Clone => {
                let selection = w.select(DEST, job.include_ignored());
                let (_, cloned) = w.clone_selected(&selection);
                News::Cloned(git_cow::cloning::Cloned {
                    cloned,
                    carried: selection.carried,
                    excluded: selection.excluded,
                    warnings: vec!["a warning".to_string()],
                })
            }
            Phase::ClockAfterClone => News::Clock(Moment { seconds: 5, nanos: 7 }),
            Phase::ReuseStat => News::Reused(3),
            Phase::FindLfs => News::UsesLfs(false),
            Phase::Checkout => News::CheckedOut(1),
            Phase::Filled | Phase::Refused => return phases,
            _ => News::Done,
        };
        job.told(news);
    }
}

fn options(include_ignored: bool) -> PopulateOptions {
    PopulateOptions { from: None, include_ignored }
}

fn fill(w: &World, include_ignored: bool) -> (Report, Vec<Phase>) {
    let mut job = populate(DEST.as_bytes(), &options(include_ignored));
    let phases = run(&mut job, w, &[".git"], None);
    match job.finish() {
        Ok(report) => (report, phases),
        Err(err) => panic!("{err}"),
    }
}

#[test]
fn refuses_worktree_with_files() {
    let mut job = populate(DEST.as_bytes(), &options(true));
    let phases = run(&mut job, &fixture(), &[".git", "big.bin", ".gitignore"], None);
    // nothing but looking has been done
    assert_eq!(phases, [Phase::Resolve, Phase::Open, Phase::List, Phase::Refused]);
    let err = match job.finish() {
        Ok(_) => panic!("not refused"),
        Err(err) => err,
    };
    assert!(err.contains("not a fresh worktree"), "{err}");
    assert_eq!(
        err,
        "/tmp/t/wt is not a fresh worktree (create it with `git worktree add --no-checkout`)"
    );
}

#[test]
fn carry_ignored_config_turns_carrying_off() {
    let mut w = agent_fixture();
    let (report, _) = fill(&w, true);
    assert_eq!(strings(&report.carried), ["_build", "app/cache", "node_modules"]);
    w.carry_ignored = Some(false);
    let (report, _) = fill(&w, true);
    assert!(report.carried.is_empty(), "{:?}", report.carried);
    let (there, _) = w.clone_selected(&w.select(DEST, false));
    assert!(!is_there(&there, "node_modules"));
}

#[test]
fn filled_worktree_is_reported() {
    let (report, phases) = fill(&agent_fixture(), true);
    assert_eq!(report.path, DEST.as_bytes());
    assert_eq!(report.source, Some(SOURCE.as_bytes().to_vec()));
    assert_eq!(report.filesystem, "btrfs");
    // .gitignore, _build, app, big.bin, node_modules, small.txt, src
    assert_eq!(report.cloned, 7);
    assert_eq!((report.stat_reused, report.rewritten), (3, 1));
    assert_eq!(report.warnings, ["a warning"]);
    assert_eq!(
        phases,
        [
            Phase::Resolve,
            Phase::Open,
            Phase::List,
            Phase::Config,
            Phase::FindMain,
            Phase::ResolveSource,
            Phase::FindHead,
            Phase::Detect,
            Phase::Capture,
            Phase::Clone,
            Phase::ClockAfterClone,
            Phase::ReadTree,
            Phase::ResetSubmodules,
            Phase::ReuseStat,
            Phase::Hash,
            Phase::FindLfs,
            Phase::WriteIndex,
            Phase::Checkout,
            Phase::WriteIndexAgain,
            Phase::Wait,
            Phase::Filled,
        ]
    );
    assert_eq!(
        report.lines(false),
        [
            "git-cow: a warning",
            "git-cow: btrfs: cloned from /tmp/t/repo, reused stat data for 3 files, \
             wrote 1 files; carried _build, app/cache, node_modules; \
             excluded env, server.sock, tmp",
        ]
    );
    assert_eq!(report.lines(true), ["git-cow: a warning"]);
}

#[test]
fn failure_while_filling_cleans_up() {
    for phase in [
        Phase::Detect,
        Phase::Clone,
        Phase::ReadTree,
        Phase::ResetSubmodules,
        Phase::Hash,
        Phase::WriteIndex,
        Phase::Checkout,
        Phase::WriteIndexAgain,
    ] {
        let mut job = populate(DEST.as_bytes(), &options(true));
        let phases = run(&mut job, &fixture(), &[".git"], Some(phase));
        let n = phases.len();
        assert_eq!(&phases[n - 3..], &[phase, Phase::Cleanup, Phase::Refused]);
        match job.finish() {
            Ok(_) => panic!("filled"),
            Err(err) => assert_eq!(err, "broken"),
        }
    }
}

#[test]
fn failure_before_filling_touches_nothing() {
    for (phase, text) in [
        (Phase::Resolve, "invalid worktree wt: broken"),
        (Phase::Open, "broken"),
        (Phase::List, "broken"),
        (Phase::Config, "broken"),
        (Phase::FindMain, "broken"),
        (Phase::ResolveSource, "invalid --from /tmp/t/repo: broken"),
    ] {
        let mut job = populate(b"wt", &options(true));
        let phases = run(&mut job, &fixture(), &[".git"], Some(phase));
        assert!(!phases.contains(&Phase::Cleanup));
        match job.finish() {
            Ok(_) => panic!("filled"),
            Err(err) => assert_eq!(err, text),
        }
    }
}

#[test]
fn worktree_must_be_linked() {
    let mut job = populate(b"wt", &options(true));
    job.told(News::Resolved(b"/src/wt".to_vec()));
    job.told(News::Opened(false));
    assert_eq!(job.phase(), Phase::Refused);
    match job.finish() {
        Ok(_) => panic!("filled"),
        Err(err) => assert_eq!(err, "/src/wt is not a linked worktree"),
    }
}

#[test]
fn unborn_branch_has_nothing_to_check_out() {
    let mut job = populate(
        b"wt",
        &PopulateOptions { from: Some(b"other".to_vec()), include_ignored: true },
    );
    job.told(News::Resolved(b"/src/wt".to_vec()));
    job.told(News::Opened(true));
    job.told(News::Names(vec![b".git".to_vec()]));
    job.told(News::CarryIgnored(None));
    assert_eq!(job.phase(), Phase::ResolveSource);
    assert_eq!(job.from(), Some(&b"other".to_vec()));
    job.told(News::Resolved(b"/src/other".to_vec()));
    job.told(News::Head(false));
    assert_eq!(job.phase(), Phase::Filled);
    let report = match job.finish() {
        Ok(report) => report,
        Err(err) => panic!("{err}"),
    };
    assert_eq!(report.source, Some(b"/src/other".to_vec()));
    assert_eq!(report.lines(false), ["git-cow: : wrote 0 files"]);
}

#[test]
fn configuration_is_read_only_where_ignored_files_are_carried() {
    let (_, phases) = fill(&fixture(), false);
    assert!(!phases.contains(&Phase::Config));
    let (_, phases) = fill(&fixture(), true);
    assert!(phases.contains(&Phase::Config));
    let mut job = populate(
        b"wt",
        &PopulateOptions { from: Some(b"other".to_vec()), include_ignored: false },
    );
    job.told(News::Resolved(b"/src/wt".to_vec()));
    job.told(News::Opened(true));
    job.told(News::Names(vec![b".git".to_vec()]));
    assert_eq!(job.phase(), Phase::ResolveSource);
}

#[test]
fn bare_repository_has_no_source() {
    let mut job = populate(b"wt", &options(true));
    job.told(News::Resolved(b"/src/wt".to_vec()));
    job.told(News::Opened(true));
    job.told(News::Names(vec![b".git".to_vec()]));
    job.told(News::CarryIgnored(Some(true)));
    assert!(job.include_ignored());
    job.told(News::Main(None));
    job.told(News::Head(true));
    job.told(News::Detected(Filesystem { name: "ext4".into(), may_clone: false }));
    assert_eq!(job.phase(), Phase::ReadTree);
    assert_eq!(job.last_old_mtime(), None);
}

#[test]
fn nothing_cloned_means_no_reuse_and_no_wait() {
    let mut w = fixture();
    w.files.clear();
    w.indexed.clear();
    let (report, phases) = fill(&w, true);
    assert_eq!(report.cloned, 0);
    assert!(!phases.contains(&Phase::ReuseStat));
    assert!(!phases.contains(&Phase::ClockAfterClone));
    assert!(!phases.contains(&Phase::Wait));
}

#[test]
fn cleanup_leaves_only_git() {
    let names: Vec<Vec<u8>> = [".git", "a", ".gitignore"]
        .iter()
        .map(|n| n.as_bytes().to_vec())
        .collect();
    assert_eq!(strings(&reset_to_fresh(&names)), ["a", ".gitignore"]);
    assert!(reset_to_fresh(&vec![b".git".to_vec()]).is_empty());
}

// --- stat data ---

fn stat_of(n: u64) -> FileStat {
    FileStat {
        ctime: 400 + n as i64,
        ctime_nsec: 5,
        mtime: 300 + n as i64,
        mtime_nsec: 6,
        dev: 1,
        ino: n,
        uid: 501,
        gid: 20,
        size: 10 * n,
    }
}

/// An entry that records what `lstat` says of its file.
fn clean_entry(path: &str, id: u8, meta: &FileStat) -> IndexEntry {
    let mut e = entry(path, id);
    git_cow::stat::fill(&mut e, meta);
    e
}

/// The index of the fixture (written at second 1000), and what `lstat` says of its files:
/// src/lib.rs is dirty.
fn source_index() -> (Vec<IndexEntry>, Vec<Option<FileStat>>) {
    let paths = [".gitignore", "big.bin", "small.txt", "src/lib.rs"];
    let entries = paths
        .iter()
        .enumerate()
        .map(|(i, p)| clean_entry(p, i as u8 + 1, &stat_of(i as u64 + 1)))
        .collect();
    let mut stats: Vec<Option<FileStat>> = (1..=4).map(|n| Some(stat_of(n))).collect();
    stats[3] = Some(FileStat { mtime: 999, size: 77, ..stat_of(4) });
    (entries, stats)
}

/// What `lstat` says of the sources and of the clones, which have another inode and ctime.
fn probes(stats: &[Option<FileStat>]) -> Vec<Option<(FileStat, FileStat)>> {
    stats
        .iter()
        .map(|s| s.map(|s| (s, FileStat { ino: s.ino + 100, ctime: 2000, ..s })))
        .collect()
}

fn unrecorded(entries: &[IndexEntry]) -> Vec<IndexEntry> {
    entries
        .iter()
        .map(|e| entry(std::str::from_utf8(&e.path).unwrap(), e.id[0]))
        .collect()
}

#[test]
fn reuses_stat_data_of_clean_source_files() {
    let (source, stats) = source_index();
    let snapshot = SourceSnapshot::capture(SOURCE.as_bytes(), &source, 1000, &stats);
    let reused = snapshot.reuse(&unrecorded(&source), &probes(&stats));
    // big.bin, .gitignore, small.txt; src/lib.rs is dirty in the source
    assert_eq!(reused.len(), 3);
    for (e, n) in reused.iter().zip(1u64..) {
        assert_eq!(e.path, source[n as usize - 1].path);
        assert_eq!(e.id, vec![n as u8; 20]);
        assert_eq!(e.ino, n as u32 + 100);
        assert_eq!((e.ctime.seconds, e.ctime.nanoseconds), (2000, 5));
        assert_eq!((e.mtime.seconds, e.mtime.nanoseconds), (300 + n as i32, 6));
        assert_eq!((e.dev, e.uid, e.gid, e.file_size), (1, 501, 20, 10 * n as u32));
    }
}

#[test]
fn attribute_change_disables_stat_reuse() {
    let (mut source, mut stats) = source_index();
    source.push(clean_entry(".gitattributes", 9, &stat_of(9)));
    stats.push(Some(stat_of(9)));
    let snapshot = SourceSnapshot::capture(SOURCE.as_bytes(), &source, 1000, &stats);
    // the target commit has no .gitattributes
    let target = unrecorded(&source[..4]);
    assert_eq!(snapshot.reuse(&target, &probes(&stats[..4])).len(), 0);
    // with another content
    let mut changed = unrecorded(&source);
    changed[4].id = vec![8; 20];
    assert_eq!(snapshot.reuse(&changed, &probes(&stats)).len(), 0);
    // with the same, in another order
    let mut same = unrecorded(&source);
    same.swap(0, 4);
    let mut swapped = probes(&stats);
    swapped.swap(0, 4);
    assert_eq!(snapshot.reuse(&same, &swapped).len(), 4);
}

#[test]
fn file_that_changes_while_it_is_cloned_is_not_reused() {
    let (source, stats) = source_index();
    let snapshot = SourceSnapshot::capture(SOURCE.as_bytes(), &source, 1000, &stats);
    let mut looks = probes(&stats);
    // the source of the first has another ctime, the clone of the second another size, and the
    // third is gone
    if let Some((now, _)) = &mut looks[0] {
        now.ctime += 1;
    }
    if let Some((_, clone)) = &mut looks[1] {
        clone.size += 1;
    }
    looks[2] = None;
    assert_eq!(snapshot.reuse(&unrecorded(&source), &looks).len(), 0);
}

#[test]
fn racy_and_conflicting_entries_are_not_trusted() {
    let (source, stats) = source_index();
    let later = |seconds| {
        SourceSnapshot::capture(SOURCE.as_bytes(), &source, seconds, &stats)
            .reuse(&unrecorded(&source), &probes(&stats))
            .len()
    };
    // modified in the second in which the index was written: 301, 302, 303
    assert_eq!(later(304), 3);
    assert_eq!(later(303), 2);
    assert_eq!(later(301), 0);
    let (mut merged, _) = source_index();
    merged[1].flags = 2 << 12;
    let snapshot = SourceSnapshot::capture(SOURCE.as_bytes(), &merged, 1000, &stats);
    assert_eq!(snapshot.reuse(&unrecorded(&source), &probes(&stats)).len(), 2);
}

#[test]
fn other_object_or_mode_is_not_reused() {
    let (source, stats) = source_index();
    let snapshot = SourceSnapshot::capture(SOURCE.as_bytes(), &source, 1000, &stats);
    let mut target = unrecorded(&source);
    target[0].id = vec![7; 20];
    target[1].mode = 0o100755;
    let reused = snapshot.reuse(&target, &probes(&stats));
    assert_eq!(reused.len(), 1);
    assert_eq!(reused[0].path, b"small.txt");
    assert!(!snapshot.knows(&target[0]));
    assert!(snapshot.knows(&target[2]));
}

// --- git-lfs ---

fn pointer(content: &[u8]) -> (String, String) {
    let oid: String = Sha256::digest(content).iter().map(|b| format!("{b:02x}")).collect();
    let text = format!(
        "version https://git-lfs.github.com/spec/v1\noid sha256:{oid}\nsize {}\n",
        content.len()
    );
    (oid, text)
}

fn content(data: &[u8]) -> Content {
    let mut c = Content::new();
    for piece in data.chunks(1 << 20) {
        c.update(piece);
    }
    c
}

/// A git-lfs file: its attribute, the blob in the index, the file in the worktree, and the
/// object in the store.
struct LfsModel<'a> {
    filter: Option<&'a str>,
    blob: &'a [u8],
    file: &'a [u8],
    object: Option<&'a [u8]>,
}

fn judge(mut f: LfsFile, m: &LfsModel, accept: bool) -> Verdict {
    loop {
        let candidate = if accept { m.file } else { m.object.unwrap_or_default() };
        let answer = match f.step() {
            LfsStep::Filter => LfsAnswer::Filter(m.filter.map(str::to_owned)),
            LfsStep::BlobSize => LfsAnswer::Size(m.blob.len() as u64),
            LfsStep::Blob => LfsAnswer::Bytes(m.blob.to_vec()),
            LfsStep::FileSize => LfsAnswer::Size(m.file.len() as u64),
            LfsStep::File => LfsAnswer::Bytes(m.file.to_vec()),
            LfsStep::Object => LfsAnswer::IsFile(m.object.is_some()),
            LfsStep::ContentSize => LfsAnswer::Size(candidate.len() as u64),
            LfsStep::Content => LfsAnswer::Content(content(candidate)),
            LfsStep::Record => LfsAnswer::Recorded,
            LfsStep::Over(verdict) => return verdict,
        };
        f.answer(answer);
    }
}

fn accepted(m: &LfsModel) -> Verdict {
    judge(LfsFile::accept(true), m, true)
}

fn smudged(m: &LfsModel) -> Verdict {
    judge(LfsFile::smudge(0o100644), m, false)
}

const ATTRIBUTES: &[u8] = b"*.bin filter=lfs diff=lfs merge=lfs -text\n";

#[test]
fn lfs_keeps_smudged_clone() {
    let b = pseudo_random(BIG, 2);
    let ptr_b = pointer(&b).1;
    assert!(used_in(b"", &vec![ATTRIBUTES.to_vec()]));
    let m = LfsModel { filter: Some("lfs"), blob: ptr_b.as_bytes(), file: &b, object: Some(&b) };
    assert_eq!(accepted(&m), Verdict::Kept);
    // nothing is left to do after checkout
    assert_eq!(smudged(&m), Verdict::Left);
}

#[test]
fn lfs_smudges_changed_file_from_store() {
    let (a, b) = (pseudo_random(BIG, 1), pseudo_random(BIG, 2));
    let ptr_a = pointer(&a).1;
    // the clone holds B, the target commit has the pointer of A
    let cloned = LfsModel { filter: Some("lfs"), blob: ptr_a.as_bytes(), file: &b, object: Some(&a) };
    assert_eq!(accepted(&cloned), Verdict::Left);
    // checkout writes the pointer
    let written = LfsModel { file: ptr_a.as_bytes(), ..cloned };
    assert_eq!(smudged(&written), Verdict::Smudged);
    let mut tally = Tally::new();
    tally.count(b"model.bin", smudged(&written));
    assert_eq!(tally.smudged.len(), 1);
}

#[test]
fn lfs_reports_missing_objects() {
    let a = pseudo_random(BIG, 1);
    let ptr_a = pointer(&a).1;
    let m = LfsModel {
        filter: Some("lfs"),
        blob: ptr_a.as_bytes(),
        file: ptr_a.as_bytes(),
        object: None,
    };
    let mut tally = Tally::new();
    tally.count(b"model.bin", smudged(&m));
    assert_eq!(strings(&tally.missing), ["model.bin"]);
}

#[test]
fn lfs_rejects_corrupt_store_object() {
    let a = pseudo_random(BIG, 1);
    let ptr_a = pointer(&a).1;
    // same size, different bytes
    let damaged = pseudo_random(BIG, 3);
    let m = LfsModel {
        filter: Some("lfs"),
        blob: ptr_a.as_bytes(),
        file: ptr_a.as_bytes(),
        object: Some(&damaged),
    };
    let mut tally = Tally::new();
    tally.count(b"model.bin", smudged(&m));
    assert_eq!(strings(&tally.corrupt), ["model.bin"]);
    assert_eq!(tally.smudged.len(), 0);
    let shorter = LfsModel { object: Some(&damaged[..10]), ..m };
    assert_eq!(smudged(&shorter), Verdict::Corrupt);
}

#[test]
fn lfs_leaves_extension_pointers_alone() {
    let b = pseudo_random(BIG, 2);
    let (oid_b, ptr_b) = pointer(&b);
    let ext_ptr = ptr_b.replacen("oid ", &format!("ext-0-foo sha256:{oid_b}\noid "), 1);
    let cloned =
        LfsModel { filter: Some("lfs"), blob: ext_ptr.as_bytes(), file: &b, object: Some(&b) };
    let written = LfsModel { file: ext_ptr.as_bytes(), ..cloned };
    let mut tally = Tally::new();
    tally.count(b"model.bin", accepted(&cloned));
    tally.count(b"model.bin", smudged(&written));
    assert_eq!(strings(&tally.unsupported), ["model.bin"]);
    assert_eq!((tally.kept.len(), tally.smudged.len()), (0, 0));
}

#[test]
fn lfs_smudges_pointer_files_cloned_from_source() {
    let b = pseudo_random(BIG, 2);
    let ptr_b = pointer(&b).1;
    // source checked out without smudging: pointer text, clean in its index
    let m = LfsModel {
        filter: Some("lfs"),
        blob: ptr_b.as_bytes(),
        file: ptr_b.as_bytes(),
        object: Some(&b),
    };
    assert_eq!(smudged(&m), Verdict::Smudged);
}

#[test]
fn lfs_file_leaving_lfs_gets_pointer_text() {
    let b = pseudo_random(BIG, 2);
    let ptr_b = pointer(&b).1;
    // target commit keeps the pointer blob but drops the LFS attribute
    assert!(!used_in(b"", &vec![]));
    let m = LfsModel { filter: None, blob: ptr_b.as_bytes(), file: &b, object: Some(&b) };
    let mut tally = Tally::new();
    tally.count(b"model.bin", accepted(&m));
    assert_eq!(tally.kept.len(), 0);
    let written = LfsModel { file: ptr_b.as_bytes(), ..m };
    assert_eq!(smudged(&written), Verdict::Left);
}

#[test]
fn lfs_looks_only_at_regular_files_of_the_index() {
    assert_eq!(LfsFile::accept(false).step(), LfsStep::Over(Verdict::Left));
    assert_eq!(LfsFile::smudge(0o120000).step(), LfsStep::Over(Verdict::Left));
    assert_eq!(LfsFile::smudge(0o160000).step(), LfsStep::Over(Verdict::Left));
    assert_eq!(LfsFile::smudge(0o100755).step(), LfsStep::Filter);
}

// --- submodules ---

#[test]
fn submodule_cleanup_does_not_follow_symlinked_parent() {
    let mut gitlink = entry("modules/sub", 1);
    gitlink.mode = 0o160000;
    let paths = submodules(&vec![entry("small.txt", 2), gitlink]);
    assert_eq!(strings(&paths), ["modules/sub"]);
    // the clone has `modules` as a symlink to a directory outside
    let mut reset = Reset::start(&paths[0]);
    let mut removed = Vec::new();
    loop {
        match reset.request() {
            ResetRequest::Inspect(path) => {
                assert_eq!(path, b"modules", "followed the symlink");
                reset.found(Found::Other);
            }
            ResetRequest::Empty(_) => panic!("emptied a directory outside"),
            ResetRequest::Remove(path) => {
                removed.push(path);
                reset.done();
            }
            ResetRequest::Done => break,
        }
    }
    assert_eq!(strings(&removed), ["modules"]);
}

#[test]
fn cloned_submodule_is_emptied() {
    let mut reset = Reset::start(b"modules/sub");
    let mut seen = Vec::new();
    let mut emptied = Vec::new();
    loop {
        match reset.request() {
            ResetRequest::Inspect(path) => {
                seen.push(path);
                reset.found(Found::Directory);
            }
            ResetRequest::Empty(path) => {
                emptied.push(path);
                reset.done();
            }
            ResetRequest::Remove(_) => panic!("nothing to remove"),
            ResetRequest::Done => break,
        }
    }
    assert_eq!(strings(&seen), ["modules", "modules/sub"]);
    assert_eq!(strings(&emptied), ["modules/sub"]);
    let mut missing = Reset::start(b"a/b/c");
    missing.found(Found::Directory);
    missing.found(Found::Nothing);
    assert!(matches!(missing.request(), ResetRequest::Done));
}

// --- more on what is selected ---

#[test]
fn ignored_cache_in_an_untracked_directory_is_carried() {
    let mut w = fixture();
    w.ignore.push("vendor/bundle/".to_string());
    w.file("vendor/bundle/gem.rb");
    w.file("vendor/notes.txt");
    w.file("vendor/more/notes.txt");
    let selection = w.select(DEST, true);
    assert_eq!(strings(&selection.carried), ["node_modules", "vendor/bundle"]);
    let (there, _) = w.clone_selected(&selection);
    assert!(is_there(&there, "vendor/bundle/gem.rb"));
    assert!(!is_there(&there, "vendor/notes.txt"));
    // a directory without anything to carry is skipped as a whole
    assert!(selection.skip.contains(b"vendor/more"));
    assert!(!selection.skip.contains(b"vendor/more/notes.txt"));
    assert!(selection.partial.contains(b"vendor"));
    assert!(!selection.partial.contains(b"vendor/more"));
}

#[test]
fn new_worktree_is_not_cloned_into_itself() {
    let mut w = fixture();
    w.file("trees/one/x");
    w.ignore.push("trees/".to_string());
    let selection = w.select("/tmp/t/repo/trees/new", true);
    assert!(selection.skip.contains(b"trees"));
    assert!(selection.skip.contains(b".git"));
    assert_eq!(strings(&selection.carried), ["node_modules"]);
    let elsewhere = w.select(DEST, true);
    assert_eq!(strings(&elsewhere.carried), ["node_modules", "trees"]);
}

#[test]
fn without_an_index_everything_is_cloned() {
    let w = fixture();
    let selection = Selection::everything();
    let (there, count) = w.clone_selected(&selection);
    assert!(!there.contains(".git"));
    assert_eq!(there.len(), w.files.len() - 1);
    assert_eq!(count, 6);
}

#[test]
fn cmake_build_directories_are_left_behind() {
    let mut w = fixture();
    w.ignore.push("build/".to_string());
    w.ignore.push("out/".to_string());
    w.ignore.push("deep/".to_string());
    w.file("build/CMakeCache.txt");
    w.file("out/debug/CMakeCache.txt");
    w.file("deep/a/b/CMakeCache.txt");
    w.file("sub/.git");
    w.ignore.push("sub/".to_string());
    let selection = w.select(DEST, true);
    assert_eq!(strings(&selection.excluded), ["build", "out", "sub"]);
    assert_eq!(strings(&selection.carried), ["deep", "node_modules"]);
}

#[test]
fn listing_order_does_not_matter() {
    let mut w = agent_fixture();
    w.file("vendor/a/notes.txt");
    w.file("vendor/b/bundle/x");
    w.ignore.push("bundle/".to_string());
    let backwards = w.select(DEST, true);
    w.backwards = false;
    let forwards = w.select(DEST, true);
    assert_eq!(backwards.skip.paths(), forwards.skip.paths());
    assert_eq!(backwards.partial.paths(), forwards.partial.paths());
    assert_eq!(backwards.carried, forwards.carried);
    assert_eq!(backwards.excluded, forwards.excluded);
}

#[test]
fn only_files_that_may_be_trusted_are_looked_at() {
    let (mut source, stats) = source_index();
    source[0].flags = 1 << 12;
    let with = |first| {
        let mut stats = stats.clone();
        stats[0] = first;
        let snapshot = SourceSnapshot::capture(SOURCE.as_bytes(), &source, 1000, &stats);
        let mut looks = probes(&stats);
        // the snapshot does not know the first and the last one
        looks[3] = None;
        looks[0] = None;
        let few = snapshot.reuse(&unrecorded(&source), &looks).len();
        assert_eq!(few, snapshot.reuse(&unrecorded(&source), &probes(&stats)).len());
        few
    };
    assert_eq!(with(None), 2);
    assert_eq!(with(Some(stat_of(1))), 2);
}
