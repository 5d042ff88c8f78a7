use git_cow::bytes::{contains, ends_with, same, starts_with, strip_prefix};
use git_cow::checkouts::Search;
use git_cow::cloning::{
    clone_worktree, device_warning, failure_warning, location_warning, not_cloned_at_all,
    support_warning, CloneAnswer, CloneRequest, Cloner, Cloning, Failure, Treatment,
};
use git_cow::copying::{clone_tree, CopyAnswer, CopyRequest};
use git_cow::cow::{
    copying, detect, is_unsupported, means_unsupported, named, numbered, Codes, Copying,
    Filesystem, Statfs,
};
use git_cow::lfs::{
    digest_matches, file_is_pointer, file_matches, is_tracked, may_hold_pointer, object_path,
    read_pointer, used_in, Content, Pointer,
};
use git_cow::number::{decimal, hex, read_number, write_number};
use git_cow::order::{precedes, sort, Order};
use git_cow::path::{is_file_name, join, parents, under};
use git_cow::path_map::{PathMap, PathSet};
use git_cow::populate::{not_fresh_error, not_linked_error, with_context};
use git_cow::report::{problem_line, say, summary_line, Report, Summary};
use git_cow::rules::{
    any_reaches_into, contains_worktrees, decide_on, include_lines, is_location_bound,
    is_never_carried, patterns, split_excludes, ChildFacts, Decision, DirFacts, FileKind, Markers,
    Matches, Rules,
};
use git_cow::select::{comma_separated, Listed, Selection};
use git_cow::smudge::{permissions, LfsAnswer, LfsFile, LfsStep, Tally, Verdict};
use git_cow::stat::{
    fill, gitattributes, same_attributes, same_mtime_and_size, same_stat, stage,
    unchanged_since_indexed, wants_stat, FileStat, IndexEntry, IndexTime, SourceSnapshot,
};
use git_cow::submodule::Found;
use git_cow::text::{lines, same_text, strip_leading, strip_marks};
use git_cow::time::{pause_after, Moment, Pause};
use git_cow::worktree::{ensure_fresh, modified, remove_path, FileDelta, Removal};

fn bytes(list: &[&str]) -> Vec<Vec<u8>> {
    list.iter().map(|s| s.as_bytes().to_vec()).collect()
}

fn strings(list: &[&str]) -> Vec<String> {
    list.iter().map(|s| s.to_string()).collect()
}

// --- bytes, order, paths ---

#[test]
fn byte_strings() {
    assert!(same(b"ab", b"ab") && !same(b"ab", b"abc") && !same(b"ab", b"ac"));
    assert!(starts_with(b"abc", b"ab") && !starts_with(b"a", b"ab"));
    assert!(ends_with(b"x/.gitattributes", b".gitattributes") && !ends_with(b"a", b"ba"));
    assert_eq!(strip_prefix(b"size 12", b"size "), Some(&b"12"[..]));
    assert_eq!(strip_prefix(b"sized", b"size "), None);
    assert!(contains(b"*.bin filter=lfs -text", b"filter=lfs"));
    assert!(!contains(b"filter=lf", b"filter=lfs"));
}

#[test]
fn paths_are_sorted_by_component() {
    let mut list = bytes(&["a.b", "a/b", "a", "a-b", "b"]);
    sort(Order::Paths, &mut list);
    assert_eq!(list, bytes(&["a", "a/b", "a-b", "a.b", "b"]));
    sort(Order::Bytes, &mut list);
    assert_eq!(list, bytes(&["a", "a-b", "a.b", "a/b", "b"]));
    assert!(precedes(Order::Paths, b"a/z", b"a.b"));
    assert!(!precedes(Order::Bytes, b"a/z", b"a.b"));
    assert!(!precedes(Order::Paths, b"a", b"a"));
    // as the paths of std are
    let mut theirs: Vec<std::path::PathBuf> =
        ["a.b", "a/b", "a", "a-b", "b"].iter().map(std::path::PathBuf::from).collect();
    theirs.sort();
    sort(Order::Paths, &mut list);
    let ours: Vec<std::path::PathBuf> = list
        .iter()
        .map(|p| std::path::PathBuf::from(std::str::from_utf8(p).unwrap()))
        .collect();
    assert_eq!(ours, theirs);
}

#[test]
fn joined_paths() {
    assert_eq!(join(b"", b"a"), b"a");
    assert_eq!(join(b"a/b", b"c"), b"a/b/c");
    assert_eq!(join(b"a/", b"c"), b"a/c");
    assert_eq!(join(b"a", b"/c"), b"/c");
    assert!(under(b"a/b", b"a") && under(b"a", b"a"));
    assert!(!under(b"ab", b"a") && !under(b"a", b"a/b"));
    assert_eq!(parents(b"a/b/c"), bytes(&["a", "a/b"]));
    assert!(parents(b"a").is_empty());
    assert!(is_file_name(b"a.b") && !is_file_name(b"") && !is_file_name(b"a/b"));
}

#[test]
fn maps_and_sets_of_paths() {
    let mut m: PathMap<u32> = PathMap::new();
    m.insert(b"b", 1);
    m.insert(b"a", 2);
    m.insert(b"b", 3);
    assert_eq!(m.get(b"b"), Some(&3));
    assert_eq!(m.get(b"a"), Some(&2));
    assert_eq!(m.get(b"c"), None);
    assert_eq!(m.keys(), bytes(&["a", "b"]));
    let mut s = PathSet::new();
    for p in ["v", "v/a", "v/b/c", "va", "w"] {
        s.insert(p.as_bytes());
    }
    s.remove_under(b"v");
    assert_eq!(s.paths(), bytes(&["va", "w"]));
    assert!(s.contains(b"w") && !s.contains(b"v/a"));
}

// --- text and numbers ---

#[test]
fn lines_and_text() {
    assert_eq!(lines(b"a\r\nb\n\nc"), bytes(&["a", "b", "", "c"]));
    assert_eq!(lines(b"a\n"), bytes(&["a"]));
    assert!(lines(b"").is_empty());
    assert_eq!(strip_leading(b"//a/", b'/'), b"a/");
    assert_eq!(strip_marks("\u{feff}a".as_bytes()), b"a");
    assert!(same_text("lfs", "lfs") && !same_text("lfs", "lf"));
}

#[test]
fn numbers() {
    assert_eq!(decimal(0), "0");
    assert_eq!(decimal(20002), "20002");
    assert_eq!(write_number(0x9123_683e, 16), "9123683e");
    assert_eq!(hex(&[0, 0x0f, 0xa0, 0xff]), "000fa0ff");
    assert_eq!(read_number(b"12"), Some(12));
    assert_eq!(read_number(b"+12"), Some(12));
    assert_eq!(read_number(b""), None);
    assert_eq!(read_number(b"-1"), None);
    assert_eq!(read_number(b"1 "), None);
    assert_eq!(read_number(b"18446744073709551615"), Some(u64::MAX));
    assert_eq!(read_number(b"18446744073709551616"), None);
}

#[test]
fn shown_paths() {
    assert_eq!(git_cow::join_paths(&bytes(&["a", "b/c", "d"])), "a, b/c, d");
    assert_eq!(git_cow::join_paths(&vec![]), "");
    assert_eq!(git_cow::join_paths(&vec![vec![b'a', 0xff]]), "a\u{fffd}");
    assert_eq!(comma_separated(&strings(&["x"])), "x");
}

// --- filesystems ---

#[test]
fn filesystems_are_detected() {
    for (magic, name, may_clone) in [
        (0x9123_683e, "btrfs", true),
        (0x5846_5342, "xfs", true),
        (0xca45_1a4e, "bcachefs", true),
        (0x2fc1_2fc1, "zfs", true),
        (0x7461_636f, "ocfs2", true),
        (0x794c_7630, "overlayfs", true),
        (0xef53, "ext4", false),
        (0x0102_1994, "tmpfs", false),
        (0x6969, "nfs", false),
        (0x6573_5546, "fuse", false),
        (0xabc, "0xabc", true),
        // a negative number of 32 bits, widened
        (0xffff_ffff_9123_683e, "btrfs", true),
    ] {
        let fs = detect(&Statfs::Magic(magic));
        assert_eq!((fs.name.as_str(), fs.may_clone), (name, may_clone));
    }
    assert_eq!(numbered(0).name, "0x0");
    for (name, may_clone) in [
        ("apfs", true),
        ("hfs", false),
        ("msdos", false),
        ("exfat", false),
        ("ntfs", false),
        ("nfs", false),
        ("smbfs", false),
    ] {
        let fs = detect(&Statfs::Name(name.as_bytes().to_vec()));
        assert_eq!((fs.name.as_str(), fs.may_clone), (name, may_clone));
        assert_eq!(named(name.to_string()).may_clone, may_clone);
    }
    assert_eq!(detect(&Statfs::Name(vec![0xff])).name, "\u{fffd}");
    let fs = detect(&Statfs::Unknown);
    assert_eq!((fs.name.as_str(), fs.may_clone), ("unknown", true));
}

#[test]
fn unsupported_errors() {
    assert!(is_unsupported(true, None, true));
    assert!(!is_unsupported(false, None, true));
    for code in [libc::EXDEV, libc::ENOTSUP, libc::EOPNOTSUPP, libc::ENOTTY, libc::ENOSYS] {
        assert!(is_unsupported(false, Some(code), false));
    }
    assert!(is_unsupported(false, Some(libc::EINVAL), true));
    assert!(!is_unsupported(false, Some(libc::EINVAL), false));
    assert!(!is_unsupported(false, Some(libc::ENOENT), true));
    let codes =
        Codes { exdev: 1, enotsup: 2, eopnotsupp: 3, enotty: 4, enosys: 5, einval: 6 };
    assert!((1..=5).all(|c| means_unsupported(false, Some(c), false, &codes)));
    assert!(means_unsupported(false, Some(6), true, &codes));
    assert!(!means_unsupported(false, Some(6), false, &codes));
    assert!(!means_unsupported(false, Some(7), true, &codes));
}

#[test]
fn trees_are_cloned_entry_by_entry() {
    assert_eq!(copying(FileKind::Socket), Copying::Nothing);
    assert_eq!(copying(FileKind::Symlink), Copying::Link);
    let mut copy = clone_tree();
    let mut made = Vec::new();
    loop {
        let answer = match copy.request() {
            CopyRequest::Inspect(p) => CopyAnswer::Kind(match p.as_slice() {
                b"" | b"d" => FileKind::Directory,
                b"l" => FileKind::Symlink,
                b"s" => FileKind::Socket,
                _ => FileKind::File,
            }),
            CopyRequest::Make(p, how) => {
                made.push((String::from_utf8(p).unwrap(), how));
                CopyAnswer::Made
            }
            CopyRequest::List(p) => CopyAnswer::Entries(match p.as_slice() {
                b"" => bytes(&["d", "s", "l", "f"]),
                _ => bytes(&["x"]),
            }),
            CopyRequest::Done => break,
        };
        copy.answer(answer);
    }
    let made: Vec<(&str, Copying)> = made.iter().map(|(p, how)| (p.as_str(), *how)).collect();
    assert_eq!(
        made,
        [
            ("", Copying::Directory),
            ("d", Copying::Directory),
            ("d/x", Copying::Reflink),
            ("d", Copying::Times),
            ("l", Copying::Link),
            ("f", Copying::Reflink),
            ("", Copying::Times),
        ]
    );
}

// --- cloning ---

fn failure(unsupported: bool) -> Failure {
    Failure { unsupported, message: "no".to_string() }
}

fn btrfs() -> Filesystem {
    Filesystem { name: "btrfs".to_string(), may_clone: true }
}

/// Clones `a`, `d/x`, `b` (with `d/y` skipped), with what comes of each step.
fn cloned_with(answer: impl Fn(&CloneRequest) -> Option<Failure>) -> (Vec<String>, Vec<String>) {
    let mut selection = Selection::everything();
    selection.skip.insert(b"d/y");
    selection.partial.insert(b"d");
    let cloner = Cloner { source: b"/s", dest: b"/n", selection: &selection };
    assert_eq!(cloner.treatment(b"d"), Treatment::Recreate);
    assert_eq!(cloner.treatment(b"d/y"), Treatment::Skip);
    assert_eq!(cloner.treatment(b"a"), Treatment::Clone);
    let mut cloning = Cloning::start();
    let mut asked = Vec::new();
    loop {
        let request = cloning.request();
        let reply = match answer(&request) {
            Some(f) => CloneAnswer::Failed(f),
            None => match request {
                CloneRequest::List(dir) => CloneAnswer::Names(if dir.is_empty() {
                    bytes(&[".git", "a", "d", "b"])
                } else {
                    bytes(&["y", "x"])
                }),
                CloneRequest::Done => break,
                CloneRequest::Clone(p) => {
                    asked.push(String::from_utf8(p).unwrap());
                    CloneAnswer::Done
                }
                _ => CloneAnswer::Done,
            },
        };
        cloner.answer(&mut cloning, reply);
    }
    selection.carried = bytes(&["a", "d/x"]);
    let cloned = clone_worktree(cloning, selection, &btrfs());
    assert_eq!(cloned.cloned, asked.len());
    // only what has been cloned is carried over
    let over: Vec<&str> = ["a", "d/x"].into_iter().filter(|p| asked.iter().any(|q| q == p)).collect();
    assert_eq!(cloned.carried, bytes(&over));
    (asked, cloned.warnings)
}

#[test]
fn failed_clones_are_warnings() {
    let (asked, warnings) = cloned_with(|_| None);
    assert_eq!(asked, ["a", "d/x", "b"]);
    assert!(warnings.is_empty());
    let (asked, warnings) = cloned_with(|r| match r {
        CloneRequest::Clone(p) if p == b"d/x" => Some(failure(false)),
        _ => None,
    });
    assert_eq!(asked, ["a", "b"]);
    assert_eq!(warnings, ["could not clone /s/d/x: no"]);
    // a directory that cannot be made, or listed, is left out
    let (asked, warnings) = cloned_with(|r| match r {
        CloneRequest::MakeDir(_) => Some(failure(false)),
        _ => None,
    });
    assert_eq!(asked, ["a", "b"]);
    assert_eq!(warnings, ["could not clone /s/d: no"]);
    let (asked, warnings) = cloned_with(|r| match r {
        CloneRequest::List(dir) if dir == b"d" => Some(failure(false)),
        _ => None,
    });
    assert_eq!(asked, ["a", "b"]);
    assert_eq!(warnings, ["could not clone /s/d: no"]);
    let (asked, warnings) = cloned_with(|r| match r {
        CloneRequest::List(_) => Some(failure(false)),
        _ => None,
    });
    assert!(asked.is_empty());
    assert_eq!(warnings, ["could not clone /s/: no"]);
}

#[test]
fn cloning_is_given_up_when_it_cannot_work() {
    let (asked, warnings) = cloned_with(|r| match r {
        CloneRequest::Clone(p) if p == b"d/x" => Some(failure(true)),
        _ => None,
    });
    assert_eq!(asked, ["a"]);
    assert_eq!(warnings, ["cannot clone on btrfs (no), git writes the remaining files"]);
    let given_up = ["cannot clone on btrfs (no), git writes the remaining files"];
    let (asked, warnings) = cloned_with(|r| match r {
        CloneRequest::MakeDir(_) => Some(failure(true)),
        _ => None,
    });
    assert_eq!(asked, ["a"]);
    assert_eq!(warnings, given_up);
    let (asked, warnings) = cloned_with(|r| match r {
        CloneRequest::List(_) => Some(failure(true)),
        _ => None,
    });
    assert!(asked.is_empty());
    assert_eq!(warnings, given_up);
}

#[test]
fn what_is_below_a_cloned_directory_is_carried_over() {
    let cloned = |name: &str| {
        let mut selection = Selection::everything();
        let cloner = Cloner { source: b"/s", dest: b"/n", selection: &selection };
        let mut cloning = Cloning::start();
        cloner.answer(&mut cloning, CloneAnswer::Names(bytes(&[name])));
        while !matches!(cloning.request(), CloneRequest::Done) {
            cloner.answer(&mut cloning, CloneAnswer::Done);
        }
        selection.carried = bytes(&["app/cache", "node_modules"]);
        clone_worktree(cloning, selection, &btrfs()).carried
    };
    assert_eq!(cloned("app"), bytes(&["app/cache"]));
    assert_eq!(cloned("node_modules"), bytes(&["node_modules"]));
    assert!(cloned("node").is_empty());
}

#[test]
fn clone_warnings() {
    let ext4 = Filesystem { name: "ext4".to_string(), may_clone: false };
    assert_eq!(
        support_warning(&ext4),
        Some("ext4 has no copy-on-write support, doing a regular checkout".to_string())
    );
    assert_eq!(support_warning(&btrfs()), None);
    assert_eq!(
        location_warning(b"/s\xff", 1, 2),
        Some("/s\u{fffd} is on another filesystem, doing a regular checkout".to_string())
    );
    assert_eq!(device_warning("/s", 1, 1), None);
    assert_eq!(
        failure_warning("xfs", "no"),
        "cannot clone on xfs (no), git writes the remaining files"
    );
    let nothing = not_cloned_at_all("w".to_string());
    assert_eq!((nothing.cloned, nothing.warnings), (0, strings(&["w"])));
    assert!(nothing.carried.is_empty() && nothing.excluded.is_empty());
}

// --- rules ---

fn facts() -> DirFacts {
    DirFacts {
        git: false,
        markers: Markers { pyvenv_cfg: false, cmake_cache: false },
        children: Vec::new(),
        checkouts: false,
    }
}

fn child() -> ChildFacts {
    ChildFacts {
        is_dir: true,
        git_file: false,
        markers: Markers { pyvenv_cfg: false, cmake_cache: false },
    }
}

#[test]
fn directories_bound_to_their_location() {
    assert!(!is_location_bound(&facts()));
    let venv = Markers { pyvenv_cfg: true, cmake_cache: false };
    assert!(is_location_bound(&DirFacts { markers: venv, ..facts() }));
    let below = DirFacts { children: vec![child(), ChildFacts { markers: venv, ..child() }], ..facts() };
    assert!(is_location_bound(&below));
    // a link to such a directory does not count
    let linked = DirFacts {
        children: vec![ChildFacts { is_dir: false, markers: venv, ..child() }],
        ..facts()
    };
    assert!(!is_location_bound(&linked));
}

#[test]
fn directories_of_worktrees() {
    assert!(!contains_worktrees(&facts()));
    assert!(contains_worktrees(&DirFacts { git: true, ..facts() }));
    let below = DirFacts { children: vec![ChildFacts { git_file: true, ..child() }], ..facts() };
    assert!(contains_worktrees(&below));
}

#[test]
fn names_that_are_never_carried() {
    for name in
        [".git", ".bzr", ".hg", ".jj", ".pijul", ".sl", ".svn", ".conductor", ".entire", ".worktrees"]
    {
        assert!(is_never_carried(name.as_bytes()));
    }
    assert!(!is_never_carried(b".gitignore") && !is_never_carried(b"hg"));
}

fn no_matches() -> Matches {
    Matches {
        user: false,
        listed: None,
        reached_into: false,
        defaults: false,
        require_include: false,
    }
}

#[test]
fn decisions() {
    let on = |kind, m: Matches| decide_on(b"x", kind, &facts(), &m);
    let (file, dir) = (FileKind::File, FileKind::Directory);
    assert_eq!(on(file, no_matches()), Decision::Carry);
    assert_eq!(on(FileKind::Symlink, no_matches()), Decision::Carry);
    for kind in [FileKind::Socket, FileKind::Fifo, FileKind::BlockDevice, FileKind::CharDevice] {
        assert_eq!(on(kind, no_matches()), Decision::Exclude);
    }
    assert_eq!(on(file, Matches { user: true, ..no_matches() }), Decision::Exclude);
    assert_eq!(on(file, Matches { defaults: true, ..no_matches() }), Decision::Exclude);
    assert_eq!(on(file, Matches { require_include: true, ..no_matches() }), Decision::Skip);
    let listed = |b| Matches { listed: Some(b), ..no_matches() };
    assert_eq!(on(file, Matches { defaults: true, ..listed(true) }), Decision::Carry);
    assert_eq!(on(file, Matches { require_include: true, ..listed(true) }), Decision::Carry);
    assert_eq!(on(file, Matches { user: true, ..listed(true) }), Decision::Exclude);
    assert_eq!(on(dir, listed(false)), Decision::Skip);
    let reached = Matches { reached_into: true, ..listed(false) };
    assert_eq!(on(dir, reached), Decision::Descend);
    assert_eq!(on(file, reached), Decision::Skip);
    assert_eq!(decide_on(b".hg", dir, &facts(), &listed(true)), Decision::Exclude);
    let repo = DirFacts { git: true, ..facts() };
    assert_eq!(decide_on(b"x", dir, &repo, &listed(true)), Decision::Exclude);
    assert_eq!(decide_on(b"x", file, &repo, &listed(true)), Decision::Carry);
    // other checkouts further down: what is beside them is still carried
    let above = DirFacts { checkouts: true, ..facts() };
    assert_eq!(decide_on(b"x", dir, &above, &listed(true)), Decision::Descend);
    assert_eq!(decide_on(b"x", dir, &above, &no_matches()), Decision::Descend);
    assert_eq!(decide_on(b"x", dir, &above, &listed(false)), Decision::Skip);
    assert_eq!(decide_on(b"x", file, &above, &listed(true)), Decision::Carry);
    let required = Matches { require_include: true, ..no_matches() };
    assert_eq!(decide_on(b"x", dir, &above, &required), Decision::Skip);
}

#[test]
fn searching_for_checkouts() {
    let listed = |name: &str, kind| Listed { name: name.as_bytes().to_vec(), kind };
    let mut search = Search::start(b"/s/tools");
    assert_eq!(search.request(), Some(b"/s/tools".to_vec()));
    search.answer(&vec![
        listed("a", FileKind::Directory),
        listed("f", FileKind::File),
        listed("l", FileKind::Symlink),
        listed("b", FileKind::Directory),
    ]);
    assert_eq!(search.request(), Some(b"/s/tools/b".to_vec()));
    search.answer(&vec![listed(".gitignore", FileKind::File)]);
    assert_eq!(search.request(), Some(b"/s/tools/a".to_vec()));
    assert!(!search.found());
    search.answer(&vec![listed("c", FileKind::Directory)]);
    assert_eq!(search.request(), Some(b"/s/tools/a/c".to_vec()));
    search.answer(&vec![listed("d", FileKind::Directory), listed(".git", FileKind::File)]);
    assert_eq!(search.request(), None);
    assert!(search.found());
    let mut search = Search::start(b"x");
    search.answer(&vec![listed("f", FileKind::File)]);
    assert_eq!(search.request(), None);
    assert!(!search.found());
}

#[test]
fn lists_of_what_is_carried() {
    let text = "# caches\n /target/debug/ \n\n\u{2003}**/cache\u{a0}\n";
    assert_eq!(include_lines(text.as_bytes()), bytes(&["target/debug/", "**/cache"]));
    assert!(include_lines(b"a\n\xff\n").is_empty());
    assert!(any_reaches_into(&bytes(&["target/debug/"]), "target"));
    assert!(!any_reaches_into(&bytes(&["target/debug/"]), "targ"));
    assert!(any_reaches_into(&bytes(&["**/cache"]), "anything"));
    assert!(!any_reaches_into(&bytes(&["cache"]), "anything"));
    // a wildcard may stand for the directory, or the end of it
    for line in ["*/dev/", "_bu*/dev", "?build/dev", "[_x]build/dev", "\\_build/dev", "*/*"] {
        assert!(any_reaches_into(&bytes(&[line]), "_build"), "{line}");
    }
    assert!(any_reaches_into(&bytes(&["a/*/c"]), "a/b"));
    assert!(any_reaches_into(&bytes(&["foo/*.txt"]), "foo"));
    // only `**` stands for more than one component
    assert!(!any_reaches_into(&bytes(&["foo/*.txt"]), "foo/bar"));
    assert!(!any_reaches_into(&bytes(&["*/dev"]), "a/b"));
    assert!(any_reaches_into(&bytes(&["foo/**/x"]), "foo/bar/baz"));
    for line in ["x*/dev", "*/", "*", "_build*", "_built/d*", "dev/"] {
        assert!(!any_reaches_into(&bytes(&[line]), "_build"), "{line}");
    }
    let (defaults, user) = split_excludes(&strings(&["!tmp/", ".cache/"]));
    assert!(defaults.contains(&"!tmp/".to_string()));
    assert!(defaults.contains(&".venv/".to_string()) && defaults.len() == 9);
    assert_eq!(user, strings(&[".cache/"]));
    assert_eq!(patterns("\u{feff}a/\nb\n".as_bytes()), strings(&["a/", "b"]));
}

#[test]
fn rules_without_a_list() {
    let rules = Rules::load(b"/s", &strings(&[".cache/", "!tmp/"]), None, None);
    let on = |path: &[u8], name: &[u8], kind| rules.decide(path, name, kind, &facts());
    let dir = FileKind::Directory;
    for name in [".venv", "venv", ".devenv", ".direnv", "log"] {
        assert_eq!(on(name.as_bytes(), name.as_bytes(), dir), Decision::Exclude);
    }
    assert_eq!(on(b"a/log", b"log", dir), Decision::Exclude);
    assert_eq!(on(b"log", b"log", FileKind::File), Decision::Carry);
    assert_eq!(on(b"tmp", b"tmp", dir), Decision::Carry);
    assert_eq!(on(b"a/.cache", b".cache", dir), Decision::Exclude);
    assert_eq!(on(b"x.pid", b"x.pid", FileKind::File), Decision::Exclude);
    assert_eq!(on(b"x.sock", b"x.sock", FileKind::File), Decision::Exclude);
    assert_eq!(on(b"target", b"target", dir), Decision::Carry);
    let required = Rules::load(b"/s", &vec![], None, Some(true));
    assert_eq!(required.decide(b"target", b"target", dir, &facts()), Decision::Skip);
}

#[test]
fn rules_with_a_list() {
    let rules = Rules::load(b"/s", &vec![], Some(b"target/debug/\n/log/\n"), Some(true));
    let dir = FileKind::Directory;
    assert_eq!(rules.decide(b"target", b"target", dir, &facts()), Decision::Descend);
    assert_eq!(rules.decide(b"target/debug", b"debug", dir, &facts()), Decision::Carry);
    assert_eq!(rules.decide(b"target/x", b"x", dir, &facts()), Decision::Skip);
    assert_eq!(rules.decide(b"log", b"log", dir, &facts()), Decision::Carry);
    assert_eq!(rules.decide(b"a/log", b"log", dir, &facts()), Decision::Skip);
    assert!(rules.include_reaches_into(b"target") && !rules.include_reaches_into(b"a"));
}

// --- git-lfs ---

const OID: &str = "4d7a214614ab2935c943f9e0ff69d22eadbb8f32b1258daaa5e2ca24d17e2393";

fn pointer_text(extra: &str) -> String {
    format!("version https://git-lfs.github.com/spec/v1\n{extra}oid sha256:{OID}\nsize 12345\n")
}

#[test]
fn pointers_are_parsed() {
    let p = Pointer::parse(pointer_text("").as_bytes()).unwrap();
    assert_eq!((p.oid.as_str(), p.size, p.has_extensions), (OID, 12345, false));
    let ext = Pointer::parse(pointer_text("ext-0-foo sha256:x\n").as_bytes()).unwrap();
    assert!(ext.has_extensions);
    let old = pointer_text("").replace("git-lfs.github", "hawser.github");
    assert!(Pointer::parse(old.as_bytes()).is_some());
    let windows = pointer_text("").replace('\n', "\r\n");
    assert!(Pointer::parse(windows.as_bytes()).is_some());
    for bad in [
        String::new(),
        "text".to_string(),
        pointer_text("").replace("spec/v1", "spec/v2"),
        pointer_text("").replace("oid ", "id "),
        pointer_text("").replace("4d7a", "4d7"),
        pointer_text("").replace("4d7a", "4d7g"),
        pointer_text("").replace("size ", "length "),
        pointer_text("").replace("12345", "-1"),
        pointer_text("size 1\n").replace("12345", "x"),
    ] {
        assert!(Pointer::parse(bad.as_bytes()).is_none(), "{bad}");
    }
    let mut invalid = pointer_text("").into_bytes();
    invalid.push(0xff);
    assert!(Pointer::parse(&invalid).is_none());
}

#[test]
fn large_files_are_no_pointers() {
    let text = pointer_text("");
    assert!(may_hold_pointer(1024) && !may_hold_pointer(1025));
    assert!(read_pointer(1024, text.as_bytes()).is_some());
    assert!(read_pointer(1025, text.as_bytes()).is_none());
    assert!(file_is_pointer(130, text.as_bytes()) && !file_is_pointer(5, b"hello"));
}

#[test]
fn content_is_verified() {
    // the digest of "abc"
    let oid = "ba7816bf8f01cfea414140de5dae2223b00361a396177a9cb410ff61f20015ad";
    let pointer = |oid: &str, size| Pointer { oid: oid.to_string(), size, has_extensions: false };
    let abc = || {
        let mut c = Content::new();
        c.update(b"a");
        c.update(b"bc");
        c
    };
    assert!(file_matches(3, abc(), &pointer(oid, 3)));
    assert!(!file_matches(4, abc(), &pointer(oid, 3)));
    assert!(!file_matches(3, Content::new(), &pointer(oid, 3)));
    assert!(!file_matches(3, abc(), &pointer(&oid.to_uppercase(), 3)));
    assert!(digest_matches(1, &[0xab, 0x01], &pointer("ab01", 1)));
    assert!(!digest_matches(1, &[0xab, 0x02], &pointer("ab01", 1)));
    assert!(!digest_matches(2, &[0xab, 0x01], &pointer("ab01", 1)));
}

#[test]
fn objects_in_the_store() {
    let p = Pointer { oid: OID.to_string(), size: 1, has_extensions: false };
    let path = |storage| String::from_utf8(object_path(b"/r/.git", storage, &p)).unwrap();
    assert_eq!(path(None), format!("/r/.git/lfs/objects/4d/7a/{OID}"));
    assert_eq!(path(Some(&b"/big"[..])), format!("/big/objects/4d/7a/{OID}"));
    assert_eq!(path(Some(&b"store"[..])), format!("/r/.git/store/objects/4d/7a/{OID}"));
}

#[test]
fn attributes_of_lfs() {
    assert!(is_tracked(Some("lfs")) && !is_tracked(Some("other")) && !is_tracked(None));
    assert!(used_in(b"x filter=lfs", &vec![]));
    assert!(used_in(b"", &bytes(&["a", "*.bin filter=lfs"])));
    assert!(!used_in(b"filter=l", &bytes(&["fs"])));
}

#[test]
fn compared_content_decides() {
    for (purpose, verdict) in [(true, Verdict::Left), (false, Verdict::Corrupt)] {
        for matches in [true, false] {
            let mut f = if purpose { LfsFile::accept(true) } else { LfsFile::smudge(0o100644) };
            assert!(f.object(b"/r", None).is_none());
            f.answer(LfsAnswer::Filter(Some("lfs".to_string())));
            f.answer(LfsAnswer::Size(130));
            f.answer(LfsAnswer::Bytes(pointer_text("").into_bytes()));
            if !purpose {
                f.answer(LfsAnswer::Size(130));
                f.answer(LfsAnswer::Bytes(pointer_text("").into_bytes()));
                let object = f.object(b"/r", None).unwrap();
                assert_eq!(object, format!("/r/lfs/objects/4d/7a/{OID}").into_bytes());
                f.answer(LfsAnswer::IsFile(true));
            }
            f.answer(LfsAnswer::Size(12345));
            assert_eq!(f.step(), LfsStep::Content);
            f.compared(matches);
            assert_eq!(f.step(), if matches { LfsStep::Record } else { LfsStep::Over(verdict) });
        }
    }
}

#[test]
fn smudged_files_keep_the_executable_bit() {
    assert_eq!(permissions(0o100644), 0o644);
    assert_eq!(permissions(0o100755), 0o755);
}

#[test]
fn git_lfs_files_are_counted() {
    let mut t = Tally::new();
    for (path, verdict) in [
        ("a", Verdict::Left),
        ("b", Verdict::Kept),
        ("c", Verdict::Smudged),
        ("d", Verdict::Missing),
        ("e", Verdict::Corrupt),
        ("f", Verdict::Unsupported),
        ("g", Verdict::Kept),
    ] {
        t.count(path.as_bytes(), verdict);
    }
    assert_eq!(t.kept, bytes(&["b", "g"]));
    assert_eq!((t.smudged, t.missing), (bytes(&["c"]), bytes(&["d"])));
    assert_eq!((t.corrupt, t.unsupported), (bytes(&["e"]), bytes(&["f"])));
}

// --- stat data ---

fn entry(path: &str) -> IndexEntry {
    IndexEntry {
        ctime: IndexTime { seconds: 1, nanoseconds: 2 },
        mtime: IndexTime { seconds: 3, nanoseconds: 4 },
        dev: 5,
        ino: 6,
        mode: 0o100644,
        uid: 7,
        gid: 8,
        file_size: 9,
        id: vec![1; 20],
        flags: 0,
        flags_extended: 0,
        path: path.as_bytes().to_vec(),
    }
}

fn meta() -> FileStat {
    FileStat {
        ctime: 1,
        ctime_nsec: 2,
        mtime: 3,
        mtime_nsec: 4,
        dev: 5,
        ino: 6,
        uid: 7,
        gid: 8,
        size: 9,
    }
}

#[test]
fn stat_data_is_recorded_as_git_does() {
    let big = FileStat {
        ctime: 0x1_0000_0001,
        mtime: -1,
        dev: 0x1_0000_0002,
        ino: 0x1_0000_0003,
        size: 0x1_0000_0004,
        ..meta()
    };
    let mut e = entry("a");
    fill(&mut e, &big);
    assert_eq!((e.ctime.seconds, e.mtime.seconds), (1, -1));
    assert_eq!((e.dev, e.ino, e.file_size), (2, 3, 4));
    assert!(unchanged_since_indexed(&e, &big));
    assert_eq!((e.path, e.mode, e.id), (b"a".to_vec(), 0o100644, vec![1; 20]));
}

#[test]
fn changed_files_are_noticed() {
    let e = entry("a");
    assert!(unchanged_since_indexed(&e, &meta()) && same_mtime_and_size(&e, &meta()));
    for changed in [
        FileStat { mtime: 9, ..meta() },
        FileStat { mtime_nsec: 9, ..meta() },
        FileStat { size: 8, ..meta() },
    ] {
        assert!(!same_mtime_and_size(&e, &changed) && !unchanged_since_indexed(&e, &changed));
        assert!(!same_stat(&meta(), &changed));
    }
    for touched in [
        FileStat { ctime: 9, ..meta() },
        FileStat { ctime_nsec: 9, ..meta() },
        FileStat { ino: 9, ..meta() },
    ] {
        assert!(same_mtime_and_size(&e, &touched) && !unchanged_since_indexed(&e, &touched));
        assert!(!same_stat(&meta(), &touched));
    }
    assert!(same_stat(&meta(), &FileStat { dev: 9, uid: 9, gid: 9, ..meta() }));
}

#[test]
fn entries_worth_a_look() {
    assert_eq!(stage(&IndexEntry { flags: 0x2fff, ..entry("a") }), 2);
    assert!(wants_stat(&entry("a"), 4));
    assert!(!wants_stat(&entry("a"), 3));
    assert!(!wants_stat(&IndexEntry { flags: 0x1000, ..entry("a") }, 4));
    let before = IndexTime { seconds: -1, nanoseconds: 0 };
    assert!(!wants_stat(&IndexEntry { mtime: before, ..entry("a") }, 4));
}

#[test]
fn attributes_files() {
    let list = vec![entry("a"), entry("x/.gitattributes"), entry(".gitattributes")];
    let found = gitattributes(&list);
    assert_eq!(found.len(), 2);
    assert_eq!(found[0].path, b"x/.gitattributes");
    let turned = gitattributes(&vec![entry(".gitattributes"), entry("x/.gitattributes")]);
    assert!(same_attributes(&found, &turned));
    assert!(!same_attributes(&found, &gitattributes(&vec![entry(".gitattributes")])));
}

#[test]
fn snapshot_knows_files_and_directories() {
    let entries = vec![entry("a/b/c"), entry("a/d"), entry("e")];
    let stats = vec![None, None, Some(meta())];
    let s = SourceSnapshot::capture(b"/s", &entries, 4, &stats);
    assert_eq!(s.root(), b"/s");
    assert!(s.is_tracked_file(b"a/b/c") && !s.is_tracked_file(b"a/b"));
    assert!(s.is_tracked_dir(b"a") && s.is_tracked_dir(b"a/b") && !s.is_tracked_dir(b"e"));
    assert!(s.knows(&entries[2]) && !s.knows(&entries[1]));
    assert!(s.has_attributes_of(&entries));
}

// --- worktrees, time, reports ---

#[test]
fn fresh_worktrees() {
    assert!(ensure_fresh(&bytes(&[".git"])) && ensure_fresh(&vec![]));
    assert!(!ensure_fresh(&bytes(&[".git", ".gitignore"])));
    assert_eq!(remove_path(Found::Directory), Removal::Tree);
    assert_eq!(remove_path(Found::Other), Removal::File);
    assert_eq!(remove_path(Found::Nothing), Removal::Nothing);
    assert_eq!(not_linked_error("w"), "w is not a linked worktree");
    assert!(not_fresh_error("w").starts_with("w is not a fresh worktree ("));
    assert_eq!(with_context("invalid --from ", "x", "gone"), "invalid --from x: gone");
}

#[test]
fn modified_files_are_picked() {
    let delta = |modified, path: Option<&str>| FileDelta {
        modified,
        path: path.map(|p| p.as_bytes().to_vec()),
    };
    let list = vec![delta(true, Some("a")), delta(false, Some("b")), delta(true, None)];
    assert_eq!(modified(&list), bytes(&["a"]));
}

#[test]
fn waits_until_the_second_is_over() {
    let at = |seconds, nanos| Moment { seconds, nanos };
    let pause = |seconds, nanos| Some(Pause { seconds, nanos });
    assert_eq!(pause_after(at(10, 5), at(10, 400_000_000)), pause(0, 600_000_000));
    assert_eq!(pause_after(at(10, 5), at(11, 0)), pause(0, 0));
    assert_eq!(pause_after(at(10, 5), at(11, 1)), None);
    assert_eq!(pause_after(at(10, 5), at(8, 0)), pause(3, 0));
    assert_eq!(pause_after(at(10, 5), at(8, 1)), pause(2, 999_999_999));
    assert_eq!(pause_after(at(-1, 5), at(-1, 6)), None);
}

#[test]
fn problems_are_reported() {
    let report = Report {
        path: b"/w".to_vec(),
        lfs_missing: bytes(&["a", "b"]),
        lfs_corrupt: bytes(&["c"]),
        lfs_unsupported: bytes(&["d"]),
        warnings: strings(&["w"]),
        ..Report::default()
    };
    assert_eq!(
        report.lines(true),
        [
            "git-cow: w",
            "git-cow: 2 git-lfs objects not downloaded, run `git lfs pull` in /w (a, b)",
            "git-cow: 1 git-lfs local objects damaged, run `git lfs fetch` and \
             `git lfs checkout` in /w (c)",
            "git-cow: 1 git-lfs files use ext-* extensions, run `git lfs checkout` in /w (d)",
        ]
    );
    assert_eq!(report.lines(false).len(), 5);
    assert_eq!(say("x"), "git-cow: x");
    assert_eq!(problem_line(&strings(&["x"]), "p", "/w"), "git-cow: 1 git-lfs p in /w (x)");
}

#[test]
fn work_is_summed_up() {
    let summary = |cloned, lfs_cloned, lfs_smudged| Summary {
        filesystem: "apfs",
        source: Some("/src/app".to_string()),
        cloned,
        stat_reused: 20002,
        rewritten: 0,
        carried: strings(&["_build", "deps", "node_modules"]),
        excluded: vec![],
        lfs_cloned,
        lfs_smudged,
    };
    assert_eq!(
        summary_line(&summary(5, 0, 0)),
        "git-cow: apfs: cloned from /src/app, reused stat data for 20002 files, \
         wrote 0 files; carried _build, deps, node_modules"
    );
    assert_eq!(
        summary_line(&summary(0, 1, 2)),
        "git-cow: apfs: wrote 0 files; carried _build, deps, node_modules; \
         git-lfs: 1 kept, 2 from local store"
    );
    let bare = Summary {
        source: None,
        carried: vec![],
        excluded: strings(&["env"]),
        ..summary(3, 0, 0)
    };
    assert_eq!(summary_line(&bare), "git-cow: apfs: wrote 0 files; excluded env");
}
