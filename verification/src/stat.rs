//! Index stat data.
//!
//! Clones keep mtime, size and mode but get a new inode and ctime. If the source worktree's
//! index says that a file was clean, the clone holds the same content, so its entry only needs
//! fresh lstat data instead of re-hashing the file.
use vstd::prelude::*;
use vstd::utf8::*;
use crate::bytes::{copy, ends_with, same};
use crate::order::SEP;
use crate::path::is_parent;
use crate::path_map::{PathMap, PathSet};
use crate::submodule::GITLINK;

verus! {

/// A time as the index holds it.
#[derive(Clone, Copy, Debug, PartialEq, Eq, Structural)]
pub struct IndexTime {
    pub seconds: i32,
    pub nanoseconds: u32,
}

/// An entry of a git index.
pub struct IndexEntry {
    pub ctime: IndexTime,
    pub mtime: IndexTime,
    pub dev: u32,
    pub ino: u32,
    pub mode: u32,
    pub uid: u32,
    pub gid: u32,
    pub file_size: u32,
    /// The object's id.
    pub id: Vec<u8>,
    pub flags: u16,
    pub flags_extended: u16,
    /// Relative to the root of the worktree.
    pub path: Vec<u8>,
}

/// What an index entry says.
pub struct Entry {
    pub ctime: IndexTime,
    pub mtime: IndexTime,
    pub dev: u32,
    pub ino: u32,
    pub mode: u32,
    pub uid: u32,
    pub gid: u32,
    pub file_size: u32,
    pub id: Seq<u8>,
    pub flags: u16,
    pub flags_extended: u16,
    pub path: Seq<u8>,
}

impl View for IndexEntry {
    type V = Entry;

    open spec fn view(&self) -> Entry {
        Entry {
            ctime: self.ctime,
            mtime: self.mtime,
            dev: self.dev,
            ino: self.ino,
            mode: self.mode,
            uid: self.uid,
            gid: self.gid,
            file_size: self.file_size,
            id: self.id@,
            flags: self.flags,
            flags_extended: self.flags_extended,
            path: self.path@,
        }
    }
}

/// What index entries say.
pub open spec fn entries_of(list: Seq<IndexEntry>) -> Seq<Entry> {
    Seq::new(list.len(), |i: int| list[i]@)
}

/// What `lstat` says of a file.
#[derive(Clone, Copy, Debug, PartialEq, Eq, Structural)]
pub struct FileStat {
    pub ctime: i64,
    pub ctime_nsec: i64,
    pub mtime: i64,
    pub mtime_nsec: i64,
    pub dev: u64,
    pub ino: u64,
    pub uid: u32,
    pub gid: u32,
    pub size: u64,
}

/// `entry` with the stat data of a file, each field cut to the width that the index has for it.
pub open spec fn filled(entry: Entry, meta: FileStat) -> Entry {
    Entry {
        ctime: IndexTime { seconds: meta.ctime as i32, nanoseconds: meta.ctime_nsec as u32 },
        mtime: IndexTime { seconds: meta.mtime as i32, nanoseconds: meta.mtime_nsec as u32 },
        dev: meta.dev as u32,
        ino: meta.ino as u32,
        uid: meta.uid,
        gid: meta.gid,
        file_size: meta.size as u32,
        ..entry
    }
}

/// Records `meta` in `entry` the way git does (fields truncated to 32 bits).
pub fn fill(entry: &mut IndexEntry, meta: &FileStat)
    ensures
        final(entry)@ == filled(old(entry)@, *meta),
{
    entry.ctime = IndexTime {
        seconds: #[verifier::truncate] (meta.ctime as i32),
        nanoseconds: #[verifier::truncate] (meta.ctime_nsec as u32),
    };
    entry.mtime = IndexTime {
        seconds: #[verifier::truncate] (meta.mtime as i32),
        nanoseconds: #[verifier::truncate] (meta.mtime_nsec as u32),
    };
    entry.dev = #[verifier::truncate] (meta.dev as u32);
    entry.ino = #[verifier::truncate] (meta.ino as u32);
    entry.uid = meta.uid;
    entry.gid = meta.gid;
    entry.file_size = #[verifier::truncate] (meta.size as u32);
}

/// The entry records the file's mtime and size.
pub open spec fn records_mtime_and_size(entry: Entry, meta: FileStat) -> bool {
    &&& entry.mtime == filled(entry, meta).mtime
    &&& entry.file_size == filled(entry, meta).file_size
}

/// The entry records the file's mtime, size, ctime and inode: the file is as it was when git
/// recorded it.
pub open spec fn records(entry: Entry, meta: FileStat) -> bool {
    &&& records_mtime_and_size(entry, meta)
    &&& entry.ctime == filled(entry, meta).ctime
    &&& entry.ino == filled(entry, meta).ino
}

/// Nothing has touched the file between two looks at it.
pub open spec fn untouched(a: FileStat, b: FileStat) -> bool {
    &&& a.mtime == b.mtime
    &&& a.mtime_nsec == b.mtime_nsec
    &&& a.ctime == b.ctime
    &&& a.ctime_nsec == b.ctime_nsec
    &&& a.ino == b.ino
    &&& a.size == b.size
}

pub fn same_mtime_and_size(entry: &IndexEntry, meta: &FileStat) -> (r: bool)
    ensures
        r == records_mtime_and_size(entry@, *meta),
{
    entry.mtime.seconds == #[verifier::truncate] (meta.mtime as i32) && entry.mtime.nanoseconds
        == #[verifier::truncate] (meta.mtime_nsec as u32) && entry.file_size
        == #[verifier::truncate] (meta.size as u32)
}

/// Whether `meta` still matches the stat data git recorded (file unchanged since).
pub fn unchanged_since_indexed(entry: &IndexEntry, meta: &FileStat) -> (r: bool)
    ensures
        r == records(entry@, *meta),
{
    same_mtime_and_size(entry, meta) && entry.ctime.seconds == #[verifier::truncate] (
    meta.ctime as i32) && entry.ctime.nanoseconds == #[verifier::truncate] (meta.ctime_nsec as u32)
        && entry.ino == #[verifier::truncate] (meta.ino as u32)
}

pub fn same_stat(a: &FileStat, b: &FileStat) -> (r: bool)
    ensures
        r == untouched(*a, *b),
{
    a.mtime == b.mtime && a.mtime_nsec == b.mtime_nsec && a.ctime == b.ctime && a.ctime_nsec
        == b.ctime_nsec && a.ino == b.ino && a.size == b.size
}

/// The stage of an entry: its two bits above the length of the name. Zero unless a merge left
/// the path in conflict.
pub open spec fn stage_of(flags: u16) -> u16 {
    (flags / 0x1000) % 4
}

pub fn stage(entry: &IndexEntry) -> (r: u16)
    ensures
        r == stage_of(entry.flags),
{
    let flags: u16 = entry.flags;
    assert((flags >> 12) & 0x3 == (flags / 0x1000) % 4) by (bit_vector);
    (flags >> 12) & 0x3
}

/// An entry whose file was written in the second in which the index was, or later: a later
/// change need not show in its mtime. A time before the epoch counts as later.
pub open spec fn is_racy(mtime: IndexTime, index_seconds: u64) -> bool {
    let at = if mtime.seconds < 0 { mtime.seconds + 0x1_0000_0000_0000_0000 } else {
        mtime.seconds as int
    };
    at >= index_seconds
}

/// An entry that could be trusted, given what `lstat` says of its file.
pub open spec fn may_be_trusted(entry: Entry, index_seconds: u64) -> bool {
    stage_of(entry.flags) == 0 && !is_racy(entry.mtime, index_seconds)
}

/// Whether an index written at `index_seconds` can vouch for `entry`, so that its file is worth
/// an `lstat`.
pub fn wants_stat(entry: &IndexEntry, index_seconds: u64) -> (r: bool)
    ensures
        r == may_be_trusted(entry@, index_seconds),
{
    let s: i32 = entry.mtime.seconds;
    let at: u64 = #[verifier::truncate] (s as u64);
    assert(s < 0 ==> at == s + 0x1_0000_0000_0000_0000) by {
        assert(s < 0 ==> (s as u64) == s + 0x1_0000_0000_0000_0000) by (bit_vector);
    }
    let racy: bool = at >= index_seconds;
    stage(entry) == 0 && !racy
}

/// A file of git attributes in an index.
pub struct Attributes {
    pub path: Vec<u8>,
    /// The object's id.
    pub id: Vec<u8>,
}

impl View for Attributes {
    type V = (Seq<u8>, Seq<u8>);

    open spec fn view(&self) -> (Seq<u8>, Seq<u8>) {
        (self.path@, self.id@)
    }
}

/// The paths and ids of a list of attributes files.
pub open spec fn attribute_list(list: Seq<Attributes>) -> Seq<(Seq<u8>, Seq<u8>)> {
    Seq::new(list.len(), |i: int| list[i]@)
}

/// A path that git reads attributes from.
pub open spec fn is_attributes_path(path: Seq<u8>) -> bool {
    encode_utf8(".gitattributes"@).is_suffix_of(path)
}

/// The attributes files of an index, as paths and ids, in the order of the entries.
pub open spec fn attributes_of(entries: Seq<Entry>) -> Seq<(Seq<u8>, Seq<u8>)> {
    entries.filter_map(
        |e: Entry|
            if is_attributes_path(e.path) {
                Some((e.path, e.id))
            } else {
                None
            },
    )
}

/// The attributes files of an index.
pub fn gitattributes(entries: &Vec<IndexEntry>) -> (r: Vec<Attributes>)
    ensures
        attribute_list(r@) == attributes_of(entries_of(entries@)),
{
    let ghost all = entries_of(entries@);
    let ghost pick = |e: Entry|
        if is_attributes_path(e.path) {
            Some((e.path, e.id))
        } else {
            None
        };
    let mut r: Vec<Attributes> = Vec::new();
    let mut i: usize = 0;
    assert(attribute_list(r@) =~= all.take(0).filter_map(pick)) by {
        reveal(Seq::filter_map);
    }
    while i < entries.len()
        invariant
            i <= entries@.len(),
            all == entries_of(entries@),
            pick == (|e: Entry|
                if is_attributes_path(e.path) {
                    Some((e.path, e.id))
                } else {
                    None
                }),
            attribute_list(r@) == all.take(i as int).filter_map(pick),
        decreases entries@.len() - i,
    {
        let ghost done = attribute_list(r@);
        proof {
            reveal(Seq::filter_map);
            assert(all.take(i + 1).drop_last() =~= all.take(i as int));
            assert(all.take(i + 1).last() == entries@[i as int]@);
        }
        if ends_with(entries[i].path.as_slice(), ".gitattributes".as_bytes()) {
            r.push(
                Attributes { path: copy(entries[i].path.as_slice()), id: copy(entries[i].id.as_slice()) },
            );
            assert(attribute_list(r@) =~= done.push(
                (entries@[i as int]@.path, entries@[i as int]@.id),
            ));
        }
        i += 1;
    }
    assert(all.take(i as int) =~= all);
    r
}

/// Whether two indexes have the same attributes files with the same content.
pub fn same_attributes(a: &Vec<Attributes>, b: &Vec<Attributes>) -> (r: bool)
    ensures
        r == (attribute_list(a@).to_multiset() == attribute_list(b@).to_multiset()),
{
    let ghost all_a = attribute_list(a@);
    let ghost all_b = attribute_list(b@);
    // positions in `b` that no entry of `a` has been paired with
    let mut free: Vec<usize> = Vec::new();
    let mut k: usize = 0;
    while k < b.len()
        invariant
            k <= b@.len(),
            free@.len() == k,
            forall|j: int| 0 <= j < k ==> #[trigger] free@[j] == j,
        decreases b@.len() - k,
    {
        free.push(k);
        k += 1;
    }
    proof {
        assert(at_positions(all_b, free@) =~= all_b);
        assert(all_a.take(0) =~= Seq::<(Seq<u8>, Seq<u8>)>::empty());
        all_a.take(0).to_multiset_ensures();
        assert(all_a.take(0).to_multiset().add(all_b.to_multiset()) =~= all_b.to_multiset());
    }
    let mut i: usize = 0;
    while i < a.len()
        invariant
            i <= a@.len(),
            all_a == attribute_list(a@),
            all_b == attribute_list(b@),
            forall|j: int| 0 <= j < free@.len() ==> #[trigger] free@[j] < b@.len(),
            all_a.take(i as int).to_multiset().add(at_positions(all_b, free@).to_multiset())
                == all_b.to_multiset(),
        decreases a@.len() - i,
    {
        let ghost rest = at_positions(all_b, free@);
        let ghost x = all_a[i as int];
        proof {
            assert(all_a.take(i + 1) =~= all_a.take(i as int).push(x));
            all_a.take(i as int).to_multiset_ensures();
            rest.to_multiset_ensures();
        }
        let mut j: usize = 0;
        while j < free.len() && !(same(a[i].path.as_slice(), b[free[j]].path.as_slice()) && same(
            a[i].id.as_slice(),
            b[free[j]].id.as_slice(),
        ))
            invariant
                i < a@.len(),
                j <= free@.len(),
                all_a == attribute_list(a@),
                all_b == attribute_list(b@),
                x == all_a[i as int],
                rest == at_positions(all_b, free@),
                forall|m: int| 0 <= m < free@.len() ==> #[trigger] free@[m] < b@.len(),
                forall|m: int| 0 <= m < j ==> rest[m] != x,
            decreases free@.len() - j,
        {
            assert(rest[j as int] == b@[free@[j as int] as int]@);
            j += 1;
        }
        if j == free.len() {
            proof {
                assert(!rest.contains(x));
                let head = all_a.take(i + 1);
                let tail = all_a.skip(i + 1);
                assert(all_a =~= head + tail);
                vstd::seq_lib::lemma_multiset_commutative(head, tail);
                assert(all_a.to_multiset().count(x) == head.to_multiset().count(x)
                    + tail.to_multiset().count(x));
                assert(head.to_multiset().count(x) == all_a.take(i as int).to_multiset().count(x)
                    + 1);
                assert(rest.to_multiset().count(x) == 0);
                assert(all_b.to_multiset().count(x) == all_a.take(i as int).to_multiset().count(x));
            }
            return false;
        }
        let ghost before = free@;
        free.remove(j);
        proof {
            assert(rest[j as int] == b@[before[j as int] as int]@);
            assert(rest[j as int] == x);
            assert(at_positions(all_b, free@) =~= rest.remove(j as int));
            assert(rest.contains(x));
            assert(all_a.take(i + 1).to_multiset().add(rest.remove(j as int).to_multiset())
                =~= all_a.take(i as int).to_multiset().add(rest.to_multiset()));
        }
        i += 1;
    }
    let ghost rest = at_positions(all_b, free@);
    proof {
        assert(all_a.take(i as int) =~= all_a);
        rest.to_multiset_ensures();
        if rest.len() == 0 {
            assert(all_a.to_multiset().add(rest.to_multiset()) =~= all_a.to_multiset());
        } else {
            assert(all_b.to_multiset().len() == all_a.to_multiset().len() + rest.len());
        }
    }
    free.len() == 0
}

/// What stands at some positions of a list.
spec fn at_positions(list: Seq<(Seq<u8>, Seq<u8>)>, positions: Seq<usize>) -> Seq<
    (Seq<u8>, Seq<u8>),
> {
    Seq::new(positions.len(), |i: int| list[positions[i] as int])
}

/// A copy of an entry.
pub fn copy_entry(e: &IndexEntry) -> (r: IndexEntry)
    ensures
        r@ == e@,
{
    IndexEntry {
        ctime: e.ctime,
        mtime: e.mtime,
        dev: e.dev,
        ino: e.ino,
        mode: e.mode,
        uid: e.uid,
        gid: e.gid,
        file_size: e.file_size,
        id: copy(e.id.as_slice()),
        flags: e.flags,
        flags_extended: e.flags_extended,
        path: copy(e.path.as_slice()),
    }
}

/// The source worktree's index as it was *before* cloning, so files changed while the clone ran
/// can't borrow stat data they don't deserve.
pub struct SourceSnapshot {
    root: Vec<u8>,
    /// Clean, non-racy entries and the lstat of their file when captured.
    trusted: PathMap<(IndexEntry, FileStat)>,
    attributes: Vec<Attributes>,
    tracked_files: PathSet,
    tracked_dirs: PathSet,
    submodules: PathSet,
}

/// What a snapshot of an index says.
pub struct Snapshot {
    pub root: Seq<u8>,
    /// Clean, non-racy entries and the lstat of their file when captured.
    pub trusted: Map<Seq<u8>, (Entry, FileStat)>,
    pub attributes: Seq<(Seq<u8>, Seq<u8>)>,
    pub files: Set<Seq<u8>>,
    pub dirs: Set<Seq<u8>>,
    /// Those of the files that are submodules.
    pub submodules: Set<Seq<u8>>,
}

impl View for SourceSnapshot {
    type V = Snapshot;

    closed spec fn view(&self) -> Snapshot {
        Snapshot {
            root: self.root@,
            trusted: trusted_view(self.trusted@),
            attributes: attribute_list(self.attributes@),
            files: self.tracked_files@,
            dirs: self.tracked_dirs@,
            submodules: self.submodules@,
        }
    }
}

spec fn trusted_view(m: Map<Seq<u8>, (IndexEntry, FileStat)>) -> Map<Seq<u8>, (Entry, FileStat)> {
    Map::new(|k: Seq<u8>| m.dom().contains(k), |k: Seq<u8>| (m[k].0@, m[k].1))
}

/// An index written at `index_seconds` vouches for `entry`, whose file looks like `meta`.
pub open spec fn vouched(entry: Entry, index_seconds: u64, meta: Option<FileStat>) -> bool {
    may_be_trusted(entry, index_seconds) && meta is Some && records(entry, meta->0)
}

/// The entries that an index vouches for, by path, among the first `n`.
pub open spec fn trusted_in(
    entries: Seq<Entry>,
    index_seconds: u64,
    stats: Seq<Option<FileStat>>,
    n: int,
) -> Map<Seq<u8>, (Entry, FileStat)>
    decreases n,
{
    if n <= 0 {
        Map::empty()
    } else {
        let m = trusted_in(entries, index_seconds, stats, n - 1);
        let e = entries[n - 1];
        if vouched(e, index_seconds, stats[n - 1]) {
            m.insert(e.path, (e, stats[n - 1]->0))
        } else {
            m
        }
    }
}

/// What a snapshot of an index says that was written at `index_seconds`, given what `lstat`
/// says of the files of its entries.
pub open spec fn captured(
    root: Seq<u8>,
    entries: Seq<Entry>,
    index_seconds: u64,
    stats: Seq<Option<FileStat>>,
) -> Snapshot {
    Snapshot {
        root,
        trusted: trusted_in(entries, index_seconds, stats, entries.len() as int),
        attributes: attributes_of(entries),
        files: Set::new(|p: Seq<u8>| exists|i: int| 0 <= i < entries.len() && entries[i].path == p),
        dirs: Set::new(
            |d: Seq<u8>|
                exists|i: int| 0 <= i < entries.len() && is_parent(d, #[trigger] entries[i].path),
        ),
        submodules: Set::new(
            |p: Seq<u8>|
                exists|i: int|
                    0 <= i < entries.len() && (#[trigger] entries[i]).path == p && entries[i].mode
                        == GITLINK,
        ),
    }
}

/// The files of an index have the same attributes as those of a snapshot.
pub open spec fn attributes_agree(snapshot: Snapshot, entries: Seq<Entry>) -> bool {
    attributes_of(entries).to_multiset() == snapshot.attributes.to_multiset()
}

/// The snapshot holds an entry for the same path, with the same object and mode.
pub open spec fn is_known(snapshot: Snapshot, entry: Entry) -> bool {
    &&& snapshot.trusted.dom().contains(entry.path)
    &&& snapshot.trusted[entry.path].0.id == entry.id
    &&& snapshot.trusted[entry.path].0.mode == entry.mode
}

/// The entry with stat data from its clone, if the snapshot vouches for it: its source is as it
/// was when captured, and the clone has the mtime and size that the source index records.
/// `probe` holds what `lstat` says now of the source and of the clone.
pub open spec fn refreshed(
    snapshot: Snapshot,
    entry: Entry,
    probe: Option<(FileStat, FileStat)>,
) -> Option<Entry> {
    if is_known(snapshot, entry) && probe is Some && untouched(
        snapshot.trusted[entry.path].1,
        (probe->0).0,
    ) && records_mtime_and_size(snapshot.trusted[entry.path].0, (probe->0).1) {
        Some(filled(entry, (probe->0).1))
    } else {
        None
    }
}

/// The refreshed ones among the first `n` entries.
pub open spec fn refreshed_in(
    snapshot: Snapshot,
    entries: Seq<Entry>,
    probes: Seq<Option<(FileStat, FileStat)>>,
    n: int,
) -> Seq<Entry>
    decreases n,
{
    if n <= 0 {
        Seq::empty()
    } else {
        let done = refreshed_in(snapshot, entries, probes, n - 1);
        match refreshed(snapshot, entries[n - 1], probes[n - 1]) {
            Some(e) => done.push(e),
            None => done,
        }
    }
}

/// The entries that can be taken over: none where the attributes differ.
pub open spec fn reused(
    snapshot: Snapshot,
    entries: Seq<Entry>,
    probes: Seq<Option<(FileStat, FileStat)>>,
) -> Seq<Entry> {
    if attributes_agree(snapshot, entries) {
        refreshed_in(snapshot, entries, probes, entries.len() as int)
    } else {
        Seq::empty()
    }
}

impl SourceSnapshot {
    /// The snapshot of the index of the worktree at `root`, written at `index_seconds`. `stats`
    /// holds what `lstat` says of the file of each entry; those for which [`wants_stat`] does
    /// not hold are not looked at.
    pub fn capture(
        root: &[u8],
        entries: &Vec<IndexEntry>,
        index_seconds: u64,
        stats: &Vec<Option<FileStat>>,
    ) -> (r: SourceSnapshot)
        requires
            stats@.len() == entries@.len(),
        ensures
            r@ == captured(root@, entries_of(entries@), index_seconds, stats@),
    {
        let ghost all = entries_of(entries@);
        let mut trusted: PathMap<(IndexEntry, FileStat)> = PathMap::new();
        let mut tracked_files: PathSet = PathSet::new();
        let mut tracked_dirs: PathSet = PathSet::new();
        let mut submodules: PathSet = PathSet::new();
        let mut i: usize = 0;
        assert(trusted_view(trusted@) =~= trusted_in(all, index_seconds, stats@, 0));
        while i < entries.len()
            invariant
                i <= entries@.len(),
                stats@.len() == entries@.len(),
                all == entries_of(entries@),
                trusted_view(trusted@) == trusted_in(all, index_seconds, stats@, i as int),
                forall|p: Seq<u8>|
                    #![trigger tracked_files@.contains(p)]
                    tracked_files@.contains(p) <==> exists|j: int| 0 <= j < i && all[j].path == p,
                forall|d: Seq<u8>|
                    #![trigger tracked_dirs@.contains(d)]
                    tracked_dirs@.contains(d) <==> exists|j: int|
                        0 <= j < i && is_parent(d, #[trigger] all[j].path),
                forall|p: Seq<u8>|
                    #![trigger submodules@.contains(p)]
                    submodules@.contains(p) <==> exists|j: int|
                        0 <= j < i && (#[trigger] all[j]).path == p && all[j].mode == GITLINK,
            decreases entries@.len() - i,
        {
            let entry: &IndexEntry = &entries[i];
            let ghost path = all[i as int].path;
            let ghost dirs0 = tracked_dirs@;
            let ghost seen = all.take(i as int);
            proof {
                assert forall|d: Seq<u8>| #[trigger]
                    dirs0.contains(d) <==> exists|j: int|
                        0 <= j < seen.len() && is_parent(d, #[trigger] seen[j].path) by {
                    if dirs0.contains(d) {
                        let j = choose|j: int| 0 <= j < i && is_parent(d, #[trigger] all[j].path);
                        assert(is_parent(d, seen[j].path));
                    }
                    if exists|j: int| 0 <= j < seen.len() && is_parent(d, #[trigger] seen[j].path) {
                        let j = choose|j: int|
                            0 <= j < seen.len() && is_parent(d, #[trigger] seen[j].path);
                        assert(is_parent(d, all[j].path));
                    }
                }
            }
            insert_parents(&mut tracked_dirs, entry.path.as_slice(), Ghost(seen));
            tracked_files.insert(entry.path.as_slice());
            let ghost modules0 = submodules@;
            if entry.mode == GITLINK {
                submodules.insert(entry.path.as_slice());
            }
            proof {
                assert(all[i as int].path == path && all[i as int].mode == entry.mode);
                assert forall|p: Seq<u8>| #[trigger] submodules@.contains(p) <==> exists|j: int|
                    0 <= j < i + 1 && (#[trigger] all[j]).path == p && all[j].mode == GITLINK by {
                    if modules0.contains(p) {
                        let j = choose|j: int|
                            0 <= j < i && (#[trigger] all[j]).path == p && all[j].mode == GITLINK;
                        assert(all[j].path == p);
                    }
                }
            }
            proof {
                assert forall|d: Seq<u8>| #[trigger]
                    tracked_dirs@.contains(d) <==> exists|j: int|
                        0 <= j < i + 1 && is_parent(d, #[trigger] all[j].path) by {
                    if dirs0.contains(d) {
                        let j = choose|j: int| 0 <= j < i && is_parent(d, #[trigger] all[j].path);
                        assert(is_parent(d, all[j].path));
                    }
                }
            }
            if wants_stat(entry, index_seconds) {
                if let Some(meta) = &stats[i] {
                    if unchanged_since_indexed(entry, meta) {
                        let ghost m0 = trusted@;
                        let kept: (IndexEntry, FileStat) = (copy_entry(entry), *meta);
                        trusted.insert(entry.path.as_slice(), kept);
                        assert(trusted_view(trusted@) =~= trusted_view(m0).insert(
                            path,
                            (all[i as int], *meta),
                        ));
                    }
                }
            }
            i += 1;
        }
        let r = SourceSnapshot {
            root: copy(root),
            trusted,
            attributes: gitattributes(entries),
            tracked_files,
            tracked_dirs,
            submodules,
        };
        proof {
            let c = captured(root@, all, index_seconds, stats@);
            assert(r@.files =~= c.files);
            assert(r@.dirs =~= c.dirs);
            assert(r@.submodules =~= c.submodules);
        }
        r
    }

    pub fn is_tracked_file(&self, rel: &[u8]) -> (r: bool)
        ensures
            r == self@.files.contains(rel@),
    {
        self.tracked_files.contains(rel)
    }

    pub fn is_tracked_dir(&self, rel: &[u8]) -> (r: bool)
        ensures
            r == self@.dirs.contains(rel@),
    {
        self.tracked_dirs.contains(rel)
    }

    /// Whether the path is that of a submodule.
    pub fn is_submodule(&self, rel: &[u8]) -> (r: bool)
        ensures
            r == self@.submodules.contains(rel@),
    {
        self.submodules.contains(rel)
    }

    /// The root of the worktree.
    pub fn root(&self) -> (r: &[u8])
        ensures
            r@ == self@.root,
    {
        self.root.as_slice()
    }

    /// Whether the files of an index have the attributes that those of the snapshot had.
    /// Different attributes can mean a different clean/smudge conversion (e.g. a file leaving
    /// LFS), so the same blob no longer implies the same bytes on disk.
    pub fn has_attributes_of(&self, entries: &Vec<IndexEntry>) -> (r: bool)
        ensures
            r == attributes_agree(self@, entries_of(entries@)),
    {
        let theirs: Vec<Attributes> = gitattributes(entries);
        same_attributes(&theirs, &self.attributes)
    }

    /// Whether the snapshot holds `entry`'s path with the same object and mode, so that its
    /// source and its clone are worth an `lstat`.
    pub fn knows(&self, entry: &IndexEntry) -> (r: bool)
        ensures
            r == is_known(self@, entry@),
    {
        match self.trusted.get(entry.path.as_slice()) {
            Some(known) => same(known.0.id.as_slice(), entry.id.as_slice()) && known.0.mode
                == entry.mode,
            None => false,
        }
    }

    /// The entry with stat data from its clone, if the snapshot vouches for it.
    fn refresh(&self, entry: &IndexEntry, probe: &Option<(FileStat, FileStat)>) -> (r: Option<
        IndexEntry,
    >)
        ensures
            r is Some <==> refreshed(self@, entry@, *probe) is Some,
            r matches Some(e) ==> refreshed(self@, entry@, *probe) == Some(e@),
    {
        if !self.knows(entry) {
            return None;
        }
        match (self.trusted.get(entry.path.as_slice()), probe) {
            (Some(known), Some((now, clone))) => {
                // the source file must not have changed while it was being cloned
                if !same_stat(&known.1, now) || !same_mtime_and_size(&known.0, clone) {
                    return None;
                }
                let mut e: IndexEntry = copy_entry(entry);
                fill(&mut e, clone);
                Some(e)
            },
            _ => None,
        }
    }

    /// For every entry of an index (the target commit) whose content the snapshot vouches for,
    /// the entry with stat data from its clone. `probes` holds for each entry what `lstat` says
    /// now of the source and of the clone; those of entries that the snapshot does not know
    /// ([`SourceSnapshot::knows`]) are not looked at.
    pub fn reuse(
        &self,
        entries: &Vec<IndexEntry>,
        probes: &Vec<Option<(FileStat, FileStat)>>,
    ) -> (r: Vec<IndexEntry>)
        requires
            probes@.len() == entries@.len(),
        ensures
            entries_of(r@) == reused(self@, entries_of(entries@), probes@),
    {
        let ghost all = entries_of(entries@);
        let mut r: Vec<IndexEntry> = Vec::new();
        assert(entries_of(r@) =~= Seq::<Entry>::empty());
        if !self.has_attributes_of(entries) {
            return r;
        }
        let mut i: usize = 0;
        while i < entries.len()
            invariant
                i <= entries@.len(),
                probes@.len() == entries@.len(),
                all == entries_of(entries@),
                entries_of(r@) == refreshed_in(self@, all, probes@, i as int),
            decreases entries@.len() - i,
        {
            let ghost done = entries_of(r@);
            if let Some(e) = self.refresh(&entries[i], &probes[i]) {
                let ghost fresh = e@;
                r.push(e);
                assert(entries_of(r@) =~= done.push(fresh));
            }
            i += 1;
        }
        r
    }
}

/// Puts the directories on the way to `path` in a set that holds, of each of its paths, the
/// directories on the way there: the first that is there already has the others with it.
fn insert_parents(dirs: &mut PathSet, path: &[u8], Ghost(seen): Ghost<Seq<Entry>>)
    requires
        forall|d: Seq<u8>|
            #![trigger old(dirs)@.contains(d)]
            old(dirs)@.contains(d) <==> exists|j: int|
                0 <= j < seen.len() && is_parent(d, #[trigger] seen[j].path),
    ensures
        forall|d: Seq<u8>|
            #![trigger final(dirs)@.contains(d)]
            final(dirs)@.contains(d) <==> old(dirs)@.contains(d) || is_parent(d, path@),
{
    let mut end: usize = path.len();
    let ghost dirs0 = dirs@;
    while end > 0
        invariant
            end <= path@.len(),
            dirs0 == old(dirs)@,
            forall|d: Seq<u8>|
                #![trigger dirs0.contains(d)]
                dirs0.contains(d) <==> exists|j: int|
                    0 <= j < seen.len() && is_parent(d, #[trigger] seen[j].path),
            forall|d: Seq<u8>|
                #![trigger dirs@.contains(d)]
                dirs@.contains(d) <==> dirs0.contains(d) || (is_parent(d, path@) && d.len() >= end),
        decreases end,
    {
        end -= 1;
        if path[end] == SEP {
            let dir: &[u8] = vstd::slice::slice_subrange(path, 0, end);
            assert(dir@ =~= path@.take(end as int));
            assert(is_parent(dir@, path@));
            if dirs.contains(dir) {
                proof {
                    assert(dirs0.contains(dir@));
                    let j = choose|j: int|
                        0 <= j < seen.len() && is_parent(dir@, #[trigger] seen[j].path);
                    assert forall|d: Seq<u8>| is_parent(d, path@) && d.len()
                        < end implies dirs0.contains(d) by {
                        assert(d =~= dir@.take(d.len() as int));
                        assert(seen[j].path.take(d.len() as int) =~= seen[j].path.take(
                            end as int,
                        ).take(d.len() as int));
                        assert(seen[j].path[d.len() as int] == seen[j].path.take(
                            end as int,
                        )[d.len() as int]);
                        assert(is_parent(d, seen[j].path));
                    }
                    assert forall|d: Seq<u8>| is_parent(d, path@) && d.len()
                        == end implies d == dir@ by {}
                }
                return ;
            }
            dirs.insert(dir);
        }
    }
}

/// A file that has not changed since its stat data was recorded is seen as unchanged.
pub proof fn law_recorded_file_is_unchanged(entry: Entry, meta: FileStat)
    ensures
        records(filled(entry, meta), meta),
        filled(entry, meta).path == entry.path,
        filled(entry, meta).id == entry.id,
        filled(entry, meta).mode == entry.mode,
        filled(entry, meta).flags == entry.flags,
{
}

/// The directories that a snapshot knows are those on the way to the files that it knows.
pub proof fn law_snapshot_knows_the_directories(
    root: Seq<u8>,
    entries: Seq<Entry>,
    index_seconds: u64,
    stats: Seq<Option<FileStat>>,
    d: Seq<u8>,
)
    ensures
        captured(root, entries, index_seconds, stats).dirs.contains(d) <==> exists|f: Seq<u8>|
            #[trigger] captured(root, entries, index_seconds, stats).files.contains(f)
                && is_parent(d, f),
{
    let s = captured(root, entries, index_seconds, stats);
    if s.dirs.contains(d) {
        let i = choose|i: int| 0 <= i < entries.len() && is_parent(d, #[trigger] entries[i].path);
        assert(s.files.contains(entries[i].path));
    }
    if exists|f: Seq<u8>| #[trigger] s.files.contains(f) && is_parent(d, f) {
        let f = choose|f: Seq<u8>| #[trigger] s.files.contains(f) && is_parent(d, f);
        let i = choose|i: int| 0 <= i < entries.len() && entries[i].path == f;
        assert(is_parent(d, entries[i].path));
    }
}

/// The submodules that a snapshot knows are among the files that it knows.
pub proof fn law_snapshot_knows_the_submodules(
    root: Seq<u8>,
    entries: Seq<Entry>,
    index_seconds: u64,
    stats: Seq<Option<FileStat>>,
)
    ensures
        captured(root, entries, index_seconds, stats).submodules.subset_of(
            captured(root, entries, index_seconds, stats).files,
        ),
{
    let s = captured(root, entries, index_seconds, stats);
    assert forall|p: Seq<u8>| s.submodules.contains(p) implies s.files.contains(p) by {
        let i = choose|i: int|
            0 <= i < entries.len() && (#[trigger] entries[i]).path == p && entries[i].mode
                == GITLINK;
        assert(entries[i].path == p);
    }
}

/// What is trusted is an entry that the index vouches for.
proof fn lemma_trusted(
    entries: Seq<Entry>,
    index_seconds: u64,
    stats: Seq<Option<FileStat>>,
    n: int,
    path: Seq<u8>,
)
    requires
        0 <= n <= entries.len(),
        trusted_in(entries, index_seconds, stats, n).dom().contains(path),
    ensures
        exists|k: int| #[trigger]
            is_source_of(
                entries,
                index_seconds,
                stats,
                k,
                path,
                trusted_in(entries, index_seconds, stats, n)[path],
            ),
    decreases n,
{
    let m = trusted_in(entries, index_seconds, stats, n);
    if n > 0 {
        let e = entries[n - 1];
        if vouched(e, index_seconds, stats[n - 1]) && path == e.path {
            assert(is_source_of(entries, index_seconds, stats, n - 1, path, m[path]));
        } else {
            lemma_trusted(entries, index_seconds, stats, n - 1, path);
        }
    }
}

/// The `k`th entry of an index is the one for `path`, the index vouches for it, and `known` is
/// what is known of it.
pub open spec fn is_source_of(
    entries: Seq<Entry>,
    index_seconds: u64,
    stats: Seq<Option<FileStat>>,
    k: int,
    path: Seq<u8>,
    known: (Entry, FileStat),
) -> bool {
    &&& 0 <= k < entries.len()
    &&& entries[k].path == path
    &&& vouched(entries[k], index_seconds, stats[k])
    &&& known == (entries[k], stats[k]->0)
}

/// The `k`th entry of the source index proves that `entry` is clean: the index vouches for it,
/// it has the same path, object and mode, its file has not changed since the snapshot, and the
/// clone has the time of modification and the size that it records.
pub open spec fn proves_clean(
    source: Seq<Entry>,
    index_seconds: u64,
    stats: Seq<Option<FileStat>>,
    k: int,
    entry: Entry,
    now: FileStat,
    clone: FileStat,
) -> bool {
    &&& 0 <= k < source.len()
    &&& source[k].path == entry.path
    &&& source[k].id == entry.id
    &&& source[k].mode == entry.mode
    &&& vouched(source[k], index_seconds, stats[k])
    &&& untouched(stats[k]->0, now)
    &&& records_mtime_and_size(source[k], clone)
}

proof fn lemma_refreshed(
    snapshot: Snapshot,
    entries: Seq<Entry>,
    probes: Seq<Option<(FileStat, FileStat)>>,
    n: int,
    i: int,
)
    requires
        0 <= n <= entries.len(),
        0 <= i < refreshed_in(snapshot, entries, probes, n).len(),
    ensures
        exists|j: int|
            0 <= j < n && #[trigger] refreshed(snapshot, entries[j], probes[j]) == Some(
                refreshed_in(snapshot, entries, probes, n)[i],
            ),
    decreases n,
{
    if n > 0 {
        let done = refreshed_in(snapshot, entries, probes, n - 1);
        if i < done.len() {
            lemma_refreshed(snapshot, entries, probes, n - 1, i);
            let j = choose|j: int|
                0 <= j < n - 1 && #[trigger] refreshed(snapshot, entries[j], probes[j]) == Some(
                    done[i],
                );
            assert(refreshed(snapshot, entries[j], probes[j]) == Some(
                refreshed_in(snapshot, entries, probes, n)[i],
            ));
        } else {
            assert(refreshed(snapshot, entries[n - 1], probes[n - 1]) == Some(
                refreshed_in(snapshot, entries, probes, n)[i],
            ));
        }
    }
}

/// Stat data is only reused for entries that the source index proves clean, and never when the
/// attributes differ. An entry that gets it differs from the one in the index only in that.
pub proof fn law_only_clean_entries_are_reused(
    root: Seq<u8>,
    source: Seq<Entry>,
    index_seconds: u64,
    stats: Seq<Option<FileStat>>,
    entries: Seq<Entry>,
    probes: Seq<Option<(FileStat, FileStat)>>,
    i: int,
)
    requires
        0 <= i < reused(captured(root, source, index_seconds, stats), entries, probes).len(),
    ensures
        attributes_of(entries).to_multiset() == attributes_of(source).to_multiset(),
        exists|j: int, k: int|
            0 <= j < entries.len() && probes[j] is Some && #[trigger] proves_clean(
                source,
                index_seconds,
                stats,
                k,
                entries[j],
                (probes[j]->0).0,
                (probes[j]->0).1,
            ) && reused(captured(root, source, index_seconds, stats), entries, probes)[i]
                == filled(entries[j], (probes[j]->0).1),
{
    let s = captured(root, source, index_seconds, stats);
    lemma_refreshed(s, entries, probes, entries.len() as int, i);
    let j = choose|j: int|
        0 <= j < entries.len() && #[trigger] refreshed(s, entries[j], probes[j]) == Some(
            reused(s, entries, probes)[i],
        );
    let path = entries[j].path;
    lemma_trusted(source, index_seconds, stats, source.len() as int, path);
    let k = choose|k: int| #[trigger]
        is_source_of(source, index_seconds, stats, k, path, s.trusted[path]);
    assert(proves_clean(
        source,
        index_seconds,
        stats,
        k,
        entries[j],
        (probes[j]->0).0,
        (probes[j]->0).1,
    ));
}

/// No two entries of an index are for the same path, except those that a merge left in conflict.
pub open spec fn are_distinct_entries(entries: Seq<Entry>) -> bool {
    forall|i: int, j: int|
        0 <= i < j < entries.len() && stage_of((#[trigger] entries[i]).flags) == 0 && stage_of(
            (#[trigger] entries[j]).flags,
        ) == 0 ==> entries[i].path != entries[j].path
}

proof fn lemma_trusted_is_kept(
    entries: Seq<Entry>,
    index_seconds: u64,
    stats: Seq<Option<FileStat>>,
    n: int,
    k: int,
)
    requires
        are_distinct_entries(entries),
        0 <= k < n <= entries.len(),
        vouched(entries[k], index_seconds, stats[k]),
    ensures
        trusted_in(entries, index_seconds, stats, n).dom().contains(entries[k].path),
        trusted_in(entries, index_seconds, stats, n)[entries[k].path] == (
            entries[k],
            stats[k]->0,
        ),
    decreases n,
{
    if k < n - 1 {
        lemma_trusted_is_kept(entries, index_seconds, stats, n - 1, k);
        assert(vouched(entries[n - 1], index_seconds, stats[n - 1]) ==> entries[k].path
            != entries[n - 1].path);
    }
}

proof fn lemma_refreshed_is_kept(
    snapshot: Snapshot,
    entries: Seq<Entry>,
    probes: Seq<Option<(FileStat, FileStat)>>,
    n: int,
    j: int,
)
    requires
        0 <= j < n <= entries.len(),
        refreshed(snapshot, entries[j], probes[j]) is Some,
    ensures
        refreshed_in(snapshot, entries, probes, n).contains(
            refreshed(snapshot, entries[j], probes[j])->0,
        ),
    decreases n,
{
    let done = refreshed_in(snapshot, entries, probes, n - 1);
    let all = refreshed_in(snapshot, entries, probes, n);
    let e = refreshed(snapshot, entries[j], probes[j])->0;
    if j < n - 1 {
        lemma_refreshed_is_kept(snapshot, entries, probes, n - 1, j);
        let i = done.index_of(e);
        assert(all[i] == e);
    } else {
        assert(all[done.len() as int] == e);
    }
}

/// Stat data is reused for every entry that the source index proves clean, unless the
/// attributes differ.
pub proof fn law_clean_entries_are_reused(
    root: Seq<u8>,
    source: Seq<Entry>,
    index_seconds: u64,
    stats: Seq<Option<FileStat>>,
    entries: Seq<Entry>,
    probes: Seq<Option<(FileStat, FileStat)>>,
    j: int,
    k: int,
)
    requires
        are_distinct_entries(source),
        attributes_of(entries).to_multiset() == attributes_of(source).to_multiset(),
        0 <= j < entries.len(),
        probes[j] is Some,
        proves_clean(
            source,
            index_seconds,
            stats,
            k,
            entries[j],
            (probes[j]->0).0,
            (probes[j]->0).1,
        ),
    ensures
        reused(captured(root, source, index_seconds, stats), entries, probes).contains(
            filled(entries[j], (probes[j]->0).1),
        ),
{
    let s = captured(root, source, index_seconds, stats);
    lemma_trusted_is_kept(source, index_seconds, stats, source.len() as int, k);
    lemma_refreshed_is_kept(s, entries, probes, entries.len() as int, j);
}

/// Only files of entries that could be trusted have to be looked at for a snapshot: what
/// `lstat` says of the others does not matter.
pub proof fn law_only_candidates_are_looked_at(
    root: Seq<u8>,
    entries: Seq<Entry>,
    index_seconds: u64,
    a: Seq<Option<FileStat>>,
    b: Seq<Option<FileStat>>,
)
    requires
        forall|i: int|
            0 <= i < entries.len() && may_be_trusted(#[trigger] entries[i], index_seconds) ==> a[i]
                == b[i],
    ensures
        captured(root, entries, index_seconds, a) == captured(root, entries, index_seconds, b),
{
    lemma_same_trusted(entries, index_seconds, a, b, entries.len() as int);
}

proof fn lemma_same_trusted(
    entries: Seq<Entry>,
    index_seconds: u64,
    a: Seq<Option<FileStat>>,
    b: Seq<Option<FileStat>>,
    n: int,
)
    requires
        0 <= n <= entries.len(),
        forall|i: int|
            0 <= i < entries.len() && may_be_trusted(#[trigger] entries[i], index_seconds) ==> a[i]
                == b[i],
    ensures
        trusted_in(entries, index_seconds, a, n) == trusted_in(entries, index_seconds, b, n),
    decreases n,
{
    if n > 0 {
        lemma_same_trusted(entries, index_seconds, a, b, n - 1);
        assert(may_be_trusted(entries[n - 1], index_seconds) ==> a[n - 1] == b[n - 1]);
    }
}

/// Only files that the snapshot knows have to be looked at again: what `lstat` says of the
/// others does not matter.
pub proof fn law_only_known_files_are_looked_at_again(
    snapshot: Snapshot,
    entries: Seq<Entry>,
    a: Seq<Option<(FileStat, FileStat)>>,
    b: Seq<Option<(FileStat, FileStat)>>,
)
    requires
        forall|i: int|
            0 <= i < entries.len() && is_known(snapshot, #[trigger] entries[i]) ==> a[i] == b[i],
    ensures
        reused(snapshot, entries, a) == reused(snapshot, entries, b),
{
    lemma_same_refreshed(snapshot, entries, a, b, entries.len() as int);
}

proof fn lemma_same_refreshed(
    snapshot: Snapshot,
    entries: Seq<Entry>,
    a: Seq<Option<(FileStat, FileStat)>>,
    b: Seq<Option<(FileStat, FileStat)>>,
    n: int,
)
    requires
        0 <= n <= entries.len(),
        forall|i: int|
            0 <= i < entries.len() && is_known(snapshot, #[trigger] entries[i]) ==> a[i] == b[i],
    ensures
        refreshed_in(snapshot, entries, a, n) == refreshed_in(snapshot, entries, b, n),
    decreases n,
{
    if n > 0 {
        lemma_same_refreshed(snapshot, entries, a, b, n - 1);
        assert(is_known(snapshot, entries[n - 1]) ==> a[n - 1] == b[n - 1]);
    }
}

proof fn lemma_cut_unsigned(x: u64)
    ensures
        (x as u32) as int == x % 0x1_0000_0000,
{
    assert((x as u32) as u64 == x % 0x1_0000_0000) by (bit_vector);
}

proof fn lemma_cut_signed(x: i64)
    ensures
        (x - (x as i32)) % 0x1_0000_0000 == 0,
        (x - (x as u32)) % 0x1_0000_0000 == 0,
        i32::MIN <= x <= i32::MAX ==> x as i32 == x,
        0 <= x <= u32::MAX ==> x as u32 == x,
{
    assert((x - (x as u32)) % 0x1_0000_0000 == 0) by (bit_vector);
    assert((x - (x as i32)) % 0x1_0000_0000 == 0) by (bit_vector);
}

/// The index records what `lstat` says: each number as it is where 32 bits hold it, and
/// otherwise modulo 2^32. What is no stat data stays as it was.
pub proof fn law_stat_data_is_recorded_in_32_bits(entry: Entry, meta: FileStat)
    ensures
        ({
            let e = filled(entry, meta);
            &&& e.file_size == meta.size as int % 0x1_0000_0000
            &&& e.ino == meta.ino as int % 0x1_0000_0000
            &&& e.dev == meta.dev as int % 0x1_0000_0000
            &&& e.uid == meta.uid
            &&& e.gid == meta.gid
            &&& (e.mtime.seconds - meta.mtime) % 0x1_0000_0000 == 0
            &&& (e.mtime.nanoseconds - meta.mtime_nsec) % 0x1_0000_0000 == 0
            &&& (e.ctime.seconds - meta.ctime) % 0x1_0000_0000 == 0
            &&& (e.ctime.nanoseconds - meta.ctime_nsec) % 0x1_0000_0000 == 0
            &&& e.id == entry.id
            &&& e.path == entry.path
            &&& e.mode == entry.mode
            &&& e.flags == entry.flags
            &&& e.flags_extended == entry.flags_extended
        }),
        meta.size < 0x1_0000_0000 ==> filled(entry, meta).file_size == meta.size,
        meta.ino < 0x1_0000_0000 ==> filled(entry, meta).ino == meta.ino,
        meta.dev < 0x1_0000_0000 ==> filled(entry, meta).dev == meta.dev,
        i32::MIN <= meta.mtime <= i32::MAX ==> filled(entry, meta).mtime.seconds == meta.mtime,
        i32::MIN <= meta.ctime <= i32::MAX ==> filled(entry, meta).ctime.seconds == meta.ctime,
        0 <= meta.mtime_nsec <= u32::MAX ==> filled(entry, meta).mtime.nanoseconds
            == meta.mtime_nsec,
        0 <= meta.ctime_nsec <= u32::MAX ==> filled(entry, meta).ctime.nanoseconds
            == meta.ctime_nsec,
{
    lemma_cut_unsigned(meta.size);
    lemma_cut_unsigned(meta.ino);
    lemma_cut_unsigned(meta.dev);
    lemma_cut_signed(meta.mtime);
    lemma_cut_signed(meta.mtime_nsec);
    lemma_cut_signed(meta.ctime);
    lemma_cut_signed(meta.ctime_nsec);
}

/// A file is as git recorded it exactly if its size, its times and its inode are those of the
/// entry, modulo 2^32: whatever else changes in one of them is noticed. For the mtime and size
/// alone, the ctime and inode do not matter.
pub proof fn law_changes_are_noticed(entry: Entry, meta: FileStat)
    ensures
        records_mtime_and_size(entry, meta) <==> {
            &&& entry.file_size == meta.size as int % 0x1_0000_0000
            &&& (entry.mtime.seconds - meta.mtime) % 0x1_0000_0000 == 0
            &&& (entry.mtime.nanoseconds - meta.mtime_nsec) % 0x1_0000_0000 == 0
        },
        records(entry, meta) <==> {
            &&& records_mtime_and_size(entry, meta)
            &&& entry.ino == meta.ino as int % 0x1_0000_0000
            &&& (entry.ctime.seconds - meta.ctime) % 0x1_0000_0000 == 0
            &&& (entry.ctime.nanoseconds - meta.ctime_nsec) % 0x1_0000_0000 == 0
        },
{
    law_stat_data_is_recorded_in_32_bits(entry, meta);
}

/// A file that looks the same twice in its size, its times and its inode has not been touched;
/// one that differs in any of them has.
pub proof fn law_touching_is_noticed(a: FileStat, b: FileStat)
    ensures
        untouched(a, b) ==> a == (FileStat { dev: a.dev, uid: a.uid, gid: a.gid, ..b }),
        untouched(a, FileStat { dev: b.dev, uid: b.uid, gid: b.gid, ..a }),
{
}

/// The stage of an entry is what stands above the twelve bits of the name's length and below the
/// two topmost bits.
pub proof fn law_stage_stands_above_the_length(above: u16, stage: u16, length: u16)
    requires
        above < 4,
        stage < 4,
        length < 0x1000,
    ensures
        stage_of((above * 0x4000 + stage * 0x1000 + length) as u16) == stage,
{
}

/// An index cannot vouch for an entry in conflict, nor for a file that was written in the second
/// in which the index was, or later; of others it can, if they are as recorded.
pub proof fn law_racy_entries_are_not_trusted(
    entry: Entry,
    index_seconds: u64,
    meta: FileStat,
)
    ensures
        stage_of(entry.flags) != 0 ==> !vouched(entry, index_seconds, Some(meta)),
        entry.mtime.seconds >= index_seconds ==> !vouched(entry, index_seconds, Some(meta)),
        !vouched(entry, index_seconds, None),
        stage_of(entry.flags) == 0 && 0 <= entry.mtime.seconds < index_seconds ==> (vouched(
            entry,
            index_seconds,
            Some(meta),
        ) <==> records(entry, meta)),
        entry.mtime.seconds < 0 && index_seconds < 0x8000_0000_0000_0000 ==> !vouched(
            entry,
            index_seconds,
            Some(meta),
        ),
{
}

/// The attributes files of an index are the entries whose path ends in `.gitattributes`, in
/// whatever directory, each with its object.
pub proof fn law_attributes_files_are_found(entries: Seq<Entry>, path: Seq<u8>, id: Seq<u8>)
    ensures
        attributes_of(entries).contains((path, id)) <==> exists|i: int|
            0 <= i < entries.len() && (#[trigger] entries[i]).path == path && entries[i].id == id
                && exists|dir: Seq<u8>| path == #[trigger] (dir + encode_utf8(".gitattributes"@)),
    decreases entries.len(),
{
    let name = encode_utf8(".gitattributes"@);
    let all = attributes_of(entries);
    if is_attributes_path(path) {
        let dir = path.take(path.len() - name.len());
        assert(path =~= dir + name);
    }
    if exists|dir: Seq<u8>| path == #[trigger] (dir + name) {
        let dir = choose|dir: Seq<u8>| path == #[trigger] (dir + name);
        assert(path.subrange(path.len() - name.len(), path.len() as int) =~= name);
    }
    reveal(Seq::filter_map);
    if entries.len() > 0 {
        let init = entries.drop_last();
        let last = entries.last();
        let found = attributes_of(init);
        law_attributes_files_are_found(init, path, id);
        assert(entries[entries.len() - 1] == last);
        assert(all == if is_attributes_path(last.path) {
            found.push((last.path, last.id))
        } else {
            found
        });
        if found.contains((path, id)) {
            let k = found.index_of((path, id));
            assert(all[k] == (path, id));
            let i = choose|i: int|
                0 <= i < init.len() && (#[trigger] init[i]).path == path && init[i].id == id;
            assert(entries[i] == init[i]);
        }
        if all.contains((path, id)) {
            let k = all.index_of((path, id));
            if k < found.len() {
                assert(found[k] == (path, id));
            }
        }
        if exists|i: int|
            0 <= i < entries.len() && (#[trigger] entries[i]).path == path && entries[i].id
                == id {
            let i = choose|i: int|
                0 <= i < entries.len() && (#[trigger] entries[i]).path == path && entries[i].id
                    == id;
            if i < init.len() {
                assert(init[i] == entries[i]);
            } else if is_attributes_path(path) {
                assert(all[found.len() as int] == (path, id));
            }
        }
    }
}

/// What a snapshot knows as tracked are the paths of all entries of the index, what it knows as
/// directories all that lead to one, and what it knows as submodules all entries with the mode
/// of one.
pub proof fn law_snapshot_knows_every_entry(
    root: Seq<u8>,
    entries: Seq<Entry>,
    index_seconds: u64,
    stats: Seq<Option<FileStat>>,
    i: int,
    rest: Seq<u8>,
    dir: Seq<u8>,
)
    requires
        0 <= i < entries.len(),
    ensures
        ({
            let s = captured(root, entries, index_seconds, stats);
            &&& s.root == root
            &&& s.files.contains(entries[i].path)
            &&& entries[i].mode == 0o160000 ==> s.submodules.contains(entries[i].path)
            &&& entries[i].path == dir + seq![0x2fu8] + rest ==> s.dirs.contains(dir)
        }),
{
    let path = entries[i].path;
    if path == dir + seq![0x2fu8] + rest {
        assert(path[dir.len() as int] == 0x2f);
        assert(path.take(dir.len() as int) =~= dir);
        assert(is_parent(dir, entries[i].path));
    }
}

/// Nothing else is known as tracked, as a directory or as a submodule.
pub proof fn law_snapshot_knows_nothing_else(
    root: Seq<u8>,
    entries: Seq<Entry>,
    index_seconds: u64,
    stats: Seq<Option<FileStat>>,
    p: Seq<u8>,
)
    ensures
        ({
            let s = captured(root, entries, index_seconds, stats);
            &&& s.files.contains(p) ==> exists|i: int|
                0 <= i < entries.len() && #[trigger] entries[i].path == p
            &&& s.submodules.contains(p) ==> exists|i: int|
                0 <= i < entries.len() && (#[trigger] entries[i]).path == p && entries[i].mode
                    == 0o160000
            &&& s.dirs.contains(p) ==> exists|i: int|
                0 <= i < entries.len() && p.push(0x2fu8).is_prefix_of(#[trigger] entries[i].path)
        }),
{
    let s = captured(root, entries, index_seconds, stats);
    if s.dirs.contains(p) {
        let i = choose|i: int| 0 <= i < entries.len() && is_parent(p, #[trigger] entries[i].path);
        let path = entries[i].path;
        assert(path.subrange(0, p.len() as int + 1) =~= p.push(0x2fu8)) by {
            assert forall|k: int| 0 <= k < p.len() implies path[k] == p[k] by {
                assert(path.take(p.len() as int)[k] == path[k]);
            }
        }
        assert(p.push(0x2fu8).is_prefix_of(entries[i].path));
    }
}

proof fn lemma_refreshed_in_order(
    snapshot: Snapshot,
    entries: Seq<Entry>,
    probes: Seq<Option<(FileStat, FileStat)>>,
    n: int,
) -> (from: Seq<int>)
    requires
        0 <= n <= entries.len(),
    ensures
        from.len() == refreshed_in(snapshot, entries, probes, n).len(),
        forall|i: int| 0 <= i < from.len() ==> 0 <= #[trigger] from[i] < n,
        forall|i: int, k: int| 0 <= i < k < from.len() ==> #[trigger] from[i] < #[trigger] from[k],
        forall|i: int|
            0 <= i < from.len() ==> (#[trigger] refreshed_in(snapshot, entries, probes, n)[i]).path
                == entries[from[i]].path,
    decreases n,
{
    if n <= 0 {
        Seq::empty()
    } else {
        let before = lemma_refreshed_in_order(snapshot, entries, probes, n - 1);
        let done = refreshed_in(snapshot, entries, probes, n - 1);
        let all = refreshed_in(snapshot, entries, probes, n);
        if refreshed(snapshot, entries[n - 1], probes[n - 1]) is Some {
            let from = before.push(n - 1);
            assert forall|i: int| 0 <= i < from.len() implies (#[trigger] all[i]).path
                == entries[from[i]].path by {
                if i < done.len() {
                    assert(all[i] == done[i]);
                    assert(from[i] == before[i]);
                }
            }
            from
        } else {
            before
        }
    }
}

/// Each entry gets its stat data at most once, in the order of the index: the result says from
/// which entry of the index each one that got it comes.
pub proof fn law_each_entry_is_reused_once(
    snapshot: Snapshot,
    entries: Seq<Entry>,
    probes: Seq<Option<(FileStat, FileStat)>>,
) -> (from: Seq<int>)
    ensures
        from.len() == reused(snapshot, entries, probes).len(),
        forall|i: int| 0 <= i < from.len() ==> 0 <= #[trigger] from[i] < entries.len(),
        forall|i: int, k: int| 0 <= i < k < from.len() ==> #[trigger] from[i] < #[trigger] from[k],
        forall|i: int|
            0 <= i < from.len() ==> (#[trigger] reused(snapshot, entries, probes)[i]).path
                == entries[from[i]].path,
{
    if attributes_agree(snapshot, entries) {
        lemma_refreshed_in_order(snapshot, entries, probes, entries.len() as int)
    } else {
        Seq::empty()
    }
}

/// The attributes files of two lists of entries, one after the other, are those of the first and
/// then those of the second.
pub proof fn law_attributes_of_all_entries(a: Seq<Entry>, b: Seq<Entry>)
    ensures
        attributes_of(a + b) == attributes_of(a) + attributes_of(b),
    decreases b.len(),
{
    reveal(Seq::filter_map);
    if b.len() == 0 {
        assert(a + b =~= a);
        assert(attributes_of(a) + attributes_of(b) =~= attributes_of(a));
    } else {
        law_attributes_of_all_entries(a, b.drop_last());
        assert((a + b).drop_last() =~= a + b.drop_last());
        assert((a + b).last() == b.last());
        assert(attributes_of(a + b) =~= attributes_of(a) + attributes_of(b));
    }
}

/// Where one index has an attributes file that the other has not, or has with other content,
/// nothing is reused, whatever the files look like. The order of the entries does not matter.
pub proof fn law_other_attributes_forbid_reuse(
    root: Seq<u8>,
    source: Seq<Entry>,
    index_seconds: u64,
    stats: Seq<Option<FileStat>>,
    entries: Seq<Entry>,
    probes: Seq<Option<(FileStat, FileStat)>>,
    file: (Seq<u8>, Seq<u8>),
)
    requires
        attributes_of(source).contains(file) != attributes_of(entries).contains(file),
    ensures
        reused(captured(root, source, index_seconds, stats), entries, probes).len() == 0,
{
    let s = captured(root, source, index_seconds, stats);
    attributes_of(source).to_multiset_ensures();
    attributes_of(entries).to_multiset_ensures();
    if attributes_agree(s, entries) {
        assert(attributes_of(source).to_multiset().count(file) == attributes_of(
            entries,
        ).to_multiset().count(file));
    }
}

} // verus!
