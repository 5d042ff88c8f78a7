//! What is done with the git-lfs files of the new worktree.
//!
//! A cloned LFS file holds smudged content while the index has the pointer blob: it is kept when
//! its sha256 matches the pointer. Pointer text in the worktree (written by checkout, or cloned
//! from a source without smudged files) is replaced with the verified object from the local LFS
//! store.
use vstd::prelude::*;
use vstd::string::*;
use vstd::utf8::*;
use crate::bytes::{copy, views};
use crate::digest::sha256;
use crate::lfs::{
    file_matches, is_tracked, may_hold_pointer, object_in, object_path, pointer_in, pointer_of,
    size_matches, storage_of, Content, Pointer, PointerData, MAX_POINTER_SIZE,
};
use crate::number::hex_of;

verus! {

/// What is done with a file.
#[derive(Clone, Copy, Debug, PartialEq, Eq, Structural)]
pub enum Purpose {
    /// Keep it if it is the content of its pointer.
    Accept,
    /// Replace pointer text with the content.
    Smudge,
}

/// What came of it.
#[derive(Clone, Copy, Debug, PartialEq, Eq, Structural)]
pub enum Verdict {
    /// Nothing was done.
    Left,
    /// The file was kept, and its stat data recorded.
    Kept,
    /// The pointer uses `ext-*` extensions.
    Unsupported,
    /// The object isn't downloaded.
    Missing,
    /// The local object is damaged.
    Corrupt,
    /// The file was filled from the store, and its stat data recorded.
    Smudged,
}

/// What has to be known or done next.
#[derive(Clone, Copy, Debug, PartialEq, Eq, Structural)]
pub enum LfsStep {
    /// The `filter` attribute of the path, in the attributes of the index.
    Filter,
    /// The size of the blob in the index.
    BlobSize,
    /// The blob.
    Blob,
    /// The size of the file in the worktree.
    FileSize,
    /// The content of the file in the worktree.
    File,
    /// Whether the object is a file in the local store.
    Object,
    /// The size of what may be the content: the file in the worktree when it may be kept, the
    /// object in the store when the file is to be replaced.
    ContentSize,
    /// What may be the content, hashed.
    Content,
    /// Record the stat data of the file in the index, after replacing the file with the object
    /// if that is the purpose.
    Record,
    /// Nothing: it is over.
    Over(Verdict),
}

/// What became known.
pub enum LfsAnswer {
    Filter(Option<String>),
    Size(u64),
    Bytes(Vec<u8>),
    IsFile(bool),
    Content(Content),
    Recorded,
}

/// What became known.
pub enum LfsTold {
    Filter(Option<Seq<char>>),
    Size(u64),
    Bytes(Seq<u8>),
    IsFile(bool),
    Content(Seq<u8>),
    Recorded,
}

impl View for LfsAnswer {
    type V = LfsTold;

    open spec fn view(&self) -> LfsTold {
        match self {
            LfsAnswer::Filter(Some(s)) => LfsTold::Filter(Some(s@)),
            LfsAnswer::Filter(None) => LfsTold::Filter(None),
            LfsAnswer::Size(n) => LfsTold::Size(*n),
            LfsAnswer::Bytes(b) => LfsTold::Bytes(b@),
            LfsAnswer::IsFile(b) => LfsTold::IsFile(*b),
            LfsAnswer::Content(c) => LfsTold::Content(c@),
            LfsAnswer::Recorded => LfsTold::Recorded,
        }
    }
}

/// Where it stands with a file.
pub struct LfsPosition {
    pub purpose: Purpose,
    pub step: LfsStep,
    /// The pointer of the blob in the index, once it is known.
    pub pointer: Option<PointerData>,
}

/// What became known is what had to be known.
pub open spec fn lfs_fits(step: LfsStep, told: LfsTold) -> bool {
    match step {
        LfsStep::Filter => told is Filter,
        LfsStep::BlobSize => told is Size,
        LfsStep::Blob => told is Bytes,
        LfsStep::FileSize => told is Size,
        LfsStep::File => told is Bytes,
        LfsStep::Object => told is IsFile,
        LfsStep::ContentSize => told is Size,
        LfsStep::Content => told is Content,
        LfsStep::Record => told is Recorded,
        LfsStep::Over(_) => false,
    }
}

/// The verdict on a file, or an object, that is not the content of the pointer.
pub open spec fn mismatch(purpose: Purpose) -> LfsStep {
    match purpose {
        Purpose::Accept => LfsStep::Over(Verdict::Left),
        Purpose::Smudge => LfsStep::Over(Verdict::Corrupt),
    }
}

/// Where it stands once that became known.
pub open spec fn lfs_answered(w: LfsPosition, told: LfsTold) -> LfsPosition {
    let left = LfsStep::Over(Verdict::Left);
    match told {
        LfsTold::Filter(value) => LfsPosition {
            step: if value == Some("lfs"@) {
                LfsStep::BlobSize
            } else {
                left
            },
            ..w
        },
        LfsTold::Size(n) => LfsPosition {
            step: match w.step {
                LfsStep::BlobSize => if n <= MAX_POINTER_SIZE {
                    LfsStep::Blob
                } else {
                    left
                },
                LfsStep::FileSize => if n <= MAX_POINTER_SIZE {
                    LfsStep::File
                } else {
                    left
                },
                _ => if n == w.pointer->0.size {
                    LfsStep::Content
                } else {
                    mismatch(w.purpose)
                },
            },
            ..w
        },
        LfsTold::Bytes(data) => if w.step == LfsStep::Blob {
            match pointer_in(data) {
                None => LfsPosition { step: left, ..w },
                Some(p) => LfsPosition {
                    pointer: Some(p),
                    step: match w.purpose {
                        Purpose::Smudge => LfsStep::FileSize,
                        Purpose::Accept => if p.has_extensions {
                            left
                        } else {
                            LfsStep::ContentSize
                        },
                    },
                    ..w
                },
            }
        } else {
            LfsPosition {
                step: if pointer_in(data) is None {
                    left
                } else if w.pointer->0.has_extensions {
                    LfsStep::Over(Verdict::Unsupported)
                } else {
                    LfsStep::Object
                },
                ..w
            }
        },
        LfsTold::IsFile(b) => LfsPosition {
            step: if b {
                LfsStep::ContentSize
            } else {
                LfsStep::Over(Verdict::Missing)
            },
            ..w
        },
        LfsTold::Content(data) => LfsPosition {
            step: if has_oid(data, w.pointer->0) {
                LfsStep::Record
            } else {
                mismatch(w.purpose)
            },
            ..w
        },
        LfsTold::Recorded => LfsPosition {
            step: LfsStep::Over(
                match w.purpose {
                    Purpose::Accept => Verdict::Kept,
                    Purpose::Smudge => Verdict::Smudged,
                },
            ),
            ..w
        },
    }
}

/// The digest of `data`, written in hexadecimal, is the object id of the pointer.
pub open spec fn has_oid(data: Seq<u8>, pointer: PointerData) -> bool {
    encode_utf8(hex_of(sha256(data))) == pointer.oid
}

/// The pointer is known from the step on that needs it.
pub open spec fn is_valid_lfs(w: LfsPosition) -> bool {
    match w.step {
        LfsStep::Filter => w.pointer is None,
        LfsStep::BlobSize => w.pointer is None,
        LfsStep::Blob => w.pointer is None,
        LfsStep::FileSize => w.pointer is Some && w.purpose == Purpose::Smudge,
        LfsStep::File => w.pointer is Some && w.purpose == Purpose::Smudge,
        LfsStep::Object => w.pointer is Some && !w.pointer->0.has_extensions && w.purpose
            == Purpose::Smudge,
        LfsStep::ContentSize => w.pointer is Some && !w.pointer->0.has_extensions,
        LfsStep::Content => w.pointer is Some && !w.pointer->0.has_extensions,
        LfsStep::Record => w.pointer is Some && !w.pointer->0.has_extensions,
        LfsStep::Over(_) => true,
    }
}

/// A git-lfs file of the new worktree.
pub struct LfsFile {
    purpose: Purpose,
    step: LfsStep,
    pointer: Option<Pointer>,
    /// The size of what may be the content.
    size: u64,
}

impl View for LfsFile {
    type V = LfsPosition;

    closed spec fn view(&self) -> LfsPosition {
        LfsPosition {
            purpose: self.purpose,
            step: self.step,
            pointer: match self.pointer {
                Some(p) => Some(p@),
                None => None,
            },
        }
    }
}

/// An index entry that is a regular file.
pub open spec fn is_regular(mode: u32) -> bool {
    mode == 0o100644 || mode == 0o100755
}

/// The permissions of a file whose index entry has this mode.
pub open spec fn permissions_of(mode: u32) -> u32 {
    if mode & 0o111 != 0 {
        0o755
    } else {
        0o644
    }
}

/// The permissions of a file whose index entry has this mode.
pub fn permissions(mode: u32) -> (r: u32)
    ensures
        r == permissions_of(mode),
{
    if mode & 0o111 != 0 {
        0o755
    } else {
        0o644
    }
}

impl LfsFile {
    pub closed spec fn wf(&self) -> bool {
        &&& is_valid_lfs(self@)
        &&& self.pointer matches Some(p) ==> p.wf()
        &&& self.step == LfsStep::Content ==> self.size == self.pointer->0.size
    }

    /// A file whose content differs from the index, to be kept if it is the content of its
    /// pointer. One that is not in the index is left alone.
    pub fn accept(indexed: bool) -> (r: LfsFile)
        ensures
            r.wf(),
            r@ == (LfsPosition {
                purpose: Purpose::Accept,
                step: if indexed {
                    LfsStep::Filter
                } else {
                    LfsStep::Over(Verdict::Left)
                },
                pointer: None,
            }),
    {
        let step: LfsStep = if indexed {
            LfsStep::Filter
        } else {
            LfsStep::Over(Verdict::Left)
        };
        LfsFile { purpose: Purpose::Accept, step, pointer: None, size: 0 }
    }

    /// A file of the index with this mode, to be smudged if it holds pointer text. What is no
    /// regular file is left alone.
    pub fn smudge(mode: u32) -> (r: LfsFile)
        ensures
            r.wf(),
            r@ == (LfsPosition {
                purpose: Purpose::Smudge,
                step: if is_regular(mode) {
                    LfsStep::Filter
                } else {
                    LfsStep::Over(Verdict::Left)
                },
                pointer: None,
            }),
    {
        let step: LfsStep = if mode == 0o100644 || mode == 0o100755 {
            LfsStep::Filter
        } else {
            LfsStep::Over(Verdict::Left)
        };
        LfsFile { purpose: Purpose::Smudge, step, pointer: None, size: 0 }
    }

    /// What has to be known or done next.
    pub fn step(&self) -> (r: LfsStep)
        ensures
            r == self@.step,
    {
        self.step
    }

    /// Where the object is in the local store: see [`object_path`].
    pub fn object(&self, common: &[u8], storage: Option<&[u8]>) -> (r: Option<Vec<u8>>)
        requires
            self.wf(),
        ensures
            r is Some <==> self@.pointer is Some,
            r matches Some(path) ==> path@ == object_in(
                storage_of(common@, match storage {
                    Some(dir) => Some(dir@),
                    None => None,
                }),
                self@.pointer->0.oid,
            ),
    {
        match &self.pointer {
            Some(pointer) => Some(object_path(common, storage, pointer)),
            None => None,
        }
    }

    /// Goes on when it is known whether what may be the content is the content of the pointer.
    pub fn compared(&mut self, matches: bool)
        requires
            old(self).wf(),
            old(self)@.step == LfsStep::Content,
        ensures
            final(self).wf(),
            final(self)@ == (LfsPosition {
                step: if matches {
                    LfsStep::Record
                } else {
                    mismatch(old(self)@.purpose)
                },
                ..old(self)@
            }),
    {
        self.step = if matches {
            LfsStep::Record
        } else {
            match self.purpose {
                Purpose::Accept => LfsStep::Over(Verdict::Left),
                Purpose::Smudge => LfsStep::Over(Verdict::Corrupt),
            }
        };
    }

    /// Goes on when that became known.
    pub fn answer(&mut self, answer: LfsAnswer)
        requires
            old(self).wf(),
            lfs_fits(old(self)@.step, answer@),
        ensures
            final(self).wf(),
            final(self)@ == lfs_answered(old(self)@, answer@),
    {
        let left: LfsStep = LfsStep::Over(Verdict::Left);
        let mismatch: LfsStep = match self.purpose {
            Purpose::Accept => LfsStep::Over(Verdict::Left),
            Purpose::Smudge => LfsStep::Over(Verdict::Corrupt),
        };
        match answer {
            LfsAnswer::Filter(value) => {
                let filtered: bool = match &value {
                    Some(v) => is_tracked(Some(v.as_str())),
                    None => is_tracked(None),
                };
                self.step = if filtered {
                    LfsStep::BlobSize
                } else {
                    left
                };
            },
            LfsAnswer::Size(n) => {
                match self.step {
                    LfsStep::BlobSize => {
                        self.step = if may_hold_pointer(n) {
                            LfsStep::Blob
                        } else {
                            left
                        };
                    },
                    LfsStep::FileSize => {
                        self.step = if may_hold_pointer(n) {
                            LfsStep::File
                        } else {
                            left
                        };
                    },
                    _ => {
                        let matches: bool = match &self.pointer {
                            Some(p) => size_matches(n, p),
                            None => false,
                        };
                        self.size = n;
                        self.step = if matches {
                            LfsStep::Content
                        } else {
                            mismatch
                        };
                    },
                }
            },
            LfsAnswer::Bytes(data) => {
                let found: Option<Pointer> = Pointer::parse(data.as_slice());
                if self.step == LfsStep::Blob {
                    match found {
                        None => {
                            self.step = left;
                        },
                        Some(p) => {
                            self.step = match self.purpose {
                                Purpose::Smudge => LfsStep::FileSize,
                                Purpose::Accept => if p.has_extensions {
                                    left
                                } else {
                                    LfsStep::ContentSize
                                },
                            };
                            self.pointer = Some(p);
                        },
                    }
                } else {
                    let extended: bool = match &self.pointer {
                        Some(p) => p.has_extensions,
                        None => false,
                    };
                    self.step = if found.is_none() {
                        left
                    } else if extended {
                        LfsStep::Over(Verdict::Unsupported)
                    } else {
                        LfsStep::Object
                    };
                }
            },
            LfsAnswer::IsFile(b) => {
                self.step = if b {
                    LfsStep::ContentSize
                } else {
                    LfsStep::Over(Verdict::Missing)
                };
            },
            LfsAnswer::Content(content) => {
                let ghost data = content@;
                let size: u64 = self.size;
                let matches: bool = match &self.pointer {
                    Some(p) => file_matches(size, content, p),
                    None => false,
                };
                proof {
                    lemma_same_oid(hex_of(sha256(data)), self.pointer->0.oid@);
                }
                self.compared(matches);
            },
            LfsAnswer::Recorded => {
                self.step = LfsStep::Over(
                    match self.purpose {
                        Purpose::Accept => Verdict::Kept,
                        Purpose::Smudge => Verdict::Smudged,
                    },
                );
            },
        }
    }
}

/// Texts with the same bytes are the same.
proof fn lemma_same_oid(a: Seq<char>, b: Seq<char>)
    ensures
        encode_utf8(a) == encode_utf8(b) <==> a == b,
{
    encode_utf8_decode_utf8(a);
    encode_utf8_decode_utf8(b);
}

/// All that can become known of a file.
pub struct LfsCase {
    /// The `filter` attribute.
    pub filter: Option<Seq<char>>,
    /// The blob in the index, and its size.
    pub blob: Seq<u8>,
    pub blob_size: u64,
    /// The file in the worktree, and its size.
    pub file: Seq<u8>,
    pub file_size: u64,
    /// The object is a file in the local store.
    pub stored: bool,
    /// What may be the content, and its size.
    pub content: Seq<u8>,
    pub content_size: u64,
}

/// The content is that of the pointer.
pub open spec fn is_intact(case: LfsCase, pointer: PointerData) -> bool {
    case.content_size == pointer.size && has_oid(case.content, pointer)
}

/// What comes of a file.
pub open spec fn verdict_of(purpose: Purpose, case: LfsCase) -> Verdict {
    let pointer = pointer_of(case.blob_size, case.blob);
    if case.filter != Some("lfs"@) || pointer is None {
        Verdict::Left
    } else {
        let p = pointer->0;
        match purpose {
            Purpose::Accept => if !p.has_extensions && is_intact(case, p) {
                Verdict::Kept
            } else {
                Verdict::Left
            },
            Purpose::Smudge => if pointer_of(case.file_size, case.file) is None {
                Verdict::Left
            } else if p.has_extensions {
                Verdict::Unsupported
            } else if !case.stored {
                Verdict::Missing
            } else if !is_intact(case, p) {
                Verdict::Corrupt
            } else {
                Verdict::Smudged
            },
        }
    }
}

/// What becomes known in a step.
pub open spec fn lfs_truth(step: LfsStep, case: LfsCase) -> LfsTold {
    match step {
        LfsStep::Filter => LfsTold::Filter(case.filter),
        LfsStep::BlobSize => LfsTold::Size(case.blob_size),
        LfsStep::Blob => LfsTold::Bytes(case.blob),
        LfsStep::FileSize => LfsTold::Size(case.file_size),
        LfsStep::File => LfsTold::Bytes(case.file),
        LfsStep::Object => LfsTold::IsFile(case.stored),
        LfsStep::ContentSize => LfsTold::Size(case.content_size),
        LfsStep::Content => LfsTold::Content(case.content),
        _ => LfsTold::Recorded,
    }
}

/// Where it stands with a file after `n` steps.
pub open spec fn lfs_run(w: LfsPosition, case: LfsCase, n: nat) -> LfsPosition
    decreases n,
{
    if n == 0 || w.step is Over {
        w
    } else {
        lfs_run(lfs_answered(w, lfs_truth(w.step, case)), case, (n - 1) as nat)
    }
}

/// How many steps there can be yet.
spec fn steps_left(step: LfsStep) -> nat {
    match step {
        LfsStep::Filter => 9,
        LfsStep::BlobSize => 8,
        LfsStep::Blob => 7,
        LfsStep::FileSize => 6,
        LfsStep::File => 5,
        LfsStep::Object => 4,
        LfsStep::ContentSize => 3,
        LfsStep::Content => 2,
        LfsStep::Record => 1,
        LfsStep::Over(_) => 0,
    }
}

/// What became known is true of the file.
spec fn is_true_of(w: LfsPosition, case: LfsCase) -> bool {
    let smudging = w.purpose == Purpose::Smudge;
    let is_lfs = case.filter == Some("lfs"@);
    let known = is_lfs && w.pointer is Some && w.pointer == pointer_of(case.blob_size, case.blob);
    let holds_text = pointer_of(case.file_size, case.file) is Some;
    let plain = known && !w.pointer->0.has_extensions && (smudging ==> holds_text);
    match w.step {
        LfsStep::Filter => true,
        LfsStep::BlobSize => is_lfs,
        LfsStep::Blob => is_lfs && case.blob_size <= MAX_POINTER_SIZE,
        LfsStep::FileSize => known && smudging,
        LfsStep::File => known && smudging && case.file_size <= MAX_POINTER_SIZE,
        LfsStep::Object => plain && smudging,
        LfsStep::ContentSize => plain && (smudging ==> case.stored),
        LfsStep::Content => plain && (smudging ==> case.stored) && case.content_size
            == w.pointer->0.size,
        LfsStep::Record => plain && (smudging ==> case.stored) && is_intact(case, w.pointer->0),
        LfsStep::Over(v) => v == verdict_of(w.purpose, case),
    }
}

proof fn lemma_lfs_run(w: LfsPosition, case: LfsCase, n: nat)
    requires
        is_true_of(w, case),
        n >= steps_left(w.step),
    ensures
        lfs_run(w, case, n).step == LfsStep::Over(verdict_of(w.purpose, case)),
    decreases n,
{
    if !(w.step is Over) {
        let v = lfs_answered(w, lfs_truth(w.step, case));
        assert(is_true_of(v, case));
        lemma_lfs_run(v, case, (n - 1) as nat);
    }
}

/// It is over with a file after at most nine steps, and what comes of it is what
/// [`verdict_of`] says.
pub proof fn law_lfs_file_ends_with_its_verdict(purpose: Purpose, case: LfsCase)
    ensures
        lfs_run(
            (LfsPosition { purpose, step: LfsStep::Filter, pointer: None }),
            case,
            9,
        ).step == LfsStep::Over(verdict_of(purpose, case)),
{
    lemma_lfs_run(LfsPosition { purpose, step: LfsStep::Filter, pointer: None }, case, 9);
}

proof fn lemma_stays_true(w: LfsPosition, case: LfsCase, n: nat)
    requires
        is_true_of(w, case),
    ensures
        is_true_of(lfs_run(w, case, n), case),
        lfs_run(w, case, n).purpose == w.purpose,
    decreases n,
{
    if n > 0 && !(w.step is Over) {
        let v = lfs_answered(w, lfs_truth(w.step, case));
        assert(is_true_of(v, case));
        lemma_stays_true(v, case, (n - 1) as nat);
    }
}

/// Nothing is recorded or replaced before the content has been found to have the size and the
/// sha256 of its pointer; missing and damaged objects, and pointers with extensions, never get
/// so far.
pub proof fn law_nothing_is_replaced_unverified(purpose: Purpose, case: LfsCase, n: nat)
    requires
        lfs_run(
            (LfsPosition { purpose, step: LfsStep::Filter, pointer: None }),
            case,
            n,
        ).step == LfsStep::Record,
    ensures
        case.filter == Some("lfs"@),
        pointer_of(case.blob_size, case.blob) is Some,
        !(pointer_of(case.blob_size, case.blob)->0).has_extensions,
        is_intact(case, pointer_of(case.blob_size, case.blob)->0),
        purpose == Purpose::Smudge ==> case.stored && pointer_of(case.file_size, case.file) is Some,
{
    lemma_stays_true(
        LfsPosition { purpose, step: LfsStep::Filter, pointer: None },
        case,
        n,
    );
}

/// A file is kept or filled from the store only with content that has the size and the sha256
/// of its pointer; a pointer with extensions is left alone.
pub proof fn law_only_verified_content_is_used(purpose: Purpose, case: LfsCase)
    ensures
        ({
            let verdict = verdict_of(purpose, case);
            let pointer = pointer_of(case.blob_size, case.blob);
            verdict == Verdict::Kept || verdict == Verdict::Smudged ==> pointer is Some
                && !pointer->0.has_extensions && is_intact(case, pointer->0)
        }),
{
}

/// The git-lfs files of a worktree, by what came of them.
pub struct Tally {
    pub kept: Vec<Vec<u8>>,
    pub smudged: Vec<Vec<u8>>,
    pub missing: Vec<Vec<u8>>,
    pub corrupt: Vec<Vec<u8>>,
    pub unsupported: Vec<Vec<u8>>,
}

/// The git-lfs files of a worktree, by what came of them.
pub struct TallyData {
    pub kept: Seq<Seq<u8>>,
    pub smudged: Seq<Seq<u8>>,
    pub missing: Seq<Seq<u8>>,
    pub corrupt: Seq<Seq<u8>>,
    pub unsupported: Seq<Seq<u8>>,
}

impl View for Tally {
    type V = TallyData;

    open spec fn view(&self) -> TallyData {
        TallyData {
            kept: views(self.kept@),
            smudged: views(self.smudged@),
            missing: views(self.missing@),
            corrupt: views(self.corrupt@),
            unsupported: views(self.unsupported@),
        }
    }
}

/// The tally when that came of the file at `path`.
pub open spec fn counted(t: TallyData, path: Seq<u8>, verdict: Verdict) -> TallyData {
    match verdict {
        Verdict::Left => t,
        Verdict::Kept => TallyData { kept: t.kept.push(path), ..t },
        Verdict::Smudged => TallyData { smudged: t.smudged.push(path), ..t },
        Verdict::Missing => TallyData { missing: t.missing.push(path), ..t },
        Verdict::Corrupt => TallyData { corrupt: t.corrupt.push(path), ..t },
        Verdict::Unsupported => TallyData { unsupported: t.unsupported.push(path), ..t },
    }
}

fn push_path(list: &mut Vec<Vec<u8>>, path: &[u8])
    ensures
        views(final(list)@) == views(old(list)@).push(path@),
{
    let ghost before = list@;
    let p: Vec<u8> = copy(path);
    list.push(p);
    assert(views(list@) =~= views(before).push(path@));
}

impl Tally {
    /// No file yet.
    pub fn new() -> (r: Tally)
        ensures
            r@ == (TallyData {
                kept: Seq::empty(),
                smudged: Seq::empty(),
                missing: Seq::empty(),
                corrupt: Seq::empty(),
                unsupported: Seq::empty(),
            }),
    {
        let r = Tally {
            kept: Vec::new(),
            smudged: Vec::new(),
            missing: Vec::new(),
            corrupt: Vec::new(),
            unsupported: Vec::new(),
        };
        assert(r@.kept =~= Seq::<Seq<u8>>::empty());
        assert(r@.smudged =~= Seq::<Seq<u8>>::empty());
        assert(r@.missing =~= Seq::<Seq<u8>>::empty());
        assert(r@.corrupt =~= Seq::<Seq<u8>>::empty());
        assert(r@.unsupported =~= Seq::<Seq<u8>>::empty());
        r
    }

    /// That came of the file at `path`.
    pub fn count(&mut self, path: &[u8], verdict: Verdict)
        ensures
            final(self)@ == counted(old(self)@, path@, verdict),
    {
        match verdict {
            Verdict::Left => {},
            Verdict::Kept => push_path(&mut self.kept, path),
            Verdict::Smudged => push_path(&mut self.smudged, path),
            Verdict::Missing => push_path(&mut self.missing, path),
            Verdict::Corrupt => push_path(&mut self.corrupt, path),
            Verdict::Unsupported => push_path(&mut self.unsupported, path),
        }
    }
}

/// What comes of a file, from all that can be known of it. One without the filter, or whose blob
/// is no pointer, is left alone. A cloned file is kept if it has the size and the digest of its
/// pointer. Pointer text is filled from the store; where that cannot be, it is told why: the
/// pointer has extensions, or the object is missing or damaged.
pub proof fn law_lfs_outcomes(purpose: Purpose, case: LfsCase)
    ensures
        ({
            let start = LfsPosition { purpose, step: LfsStep::Filter, pointer: None };
            let end = lfs_run(start, case, 9).step;
            let is_pointer = case.filter == Some("lfs"@) && case.blob_size <= 1024 && pointer_in(
                case.blob,
            ) is Some;
            let p = pointer_in(case.blob)->0;
            let is_text = case.file_size <= 1024 && pointer_in(case.file) is Some;
            let intact = case.content_size == p.size && encode_utf8(hex_of(sha256(case.content)))
                == p.oid;
            let keeping = is_pointer && purpose == Purpose::Accept;
            let filling = is_pointer && purpose == Purpose::Smudge && is_text;
            &&& !is_pointer ==> end == LfsStep::Over(Verdict::Left)
            &&& keeping && !p.has_extensions && intact ==> end == LfsStep::Over(Verdict::Kept)
            &&& keeping && !(!p.has_extensions && intact) ==> end == LfsStep::Over(Verdict::Left)
            &&& purpose == Purpose::Smudge && !is_text ==> end == LfsStep::Over(Verdict::Left)
            &&& filling && p.has_extensions ==> end == LfsStep::Over(Verdict::Unsupported)
            &&& filling && !p.has_extensions && !case.stored ==> end == LfsStep::Over(
                Verdict::Missing,
            )
            &&& filling && !p.has_extensions && case.stored && !intact ==> end == LfsStep::Over(
                Verdict::Corrupt,
            )
            &&& filling && !p.has_extensions && case.stored && intact ==> end == LfsStep::Over(
                Verdict::Smudged,
            )
        }),
{
    law_lfs_file_ends_with_its_verdict(purpose, case);
}

/// Each file is counted once, in the list of what came of it, behind those that were counted
/// before; a file that was left alone is not counted.
pub proof fn law_each_file_is_counted_once(t: TallyData, path: Seq<u8>, verdict: Verdict)
    ensures
        ({
            let c = counted(t, path, verdict);
            let total = |x: TallyData|
                x.kept.len() + x.smudged.len() + x.missing.len() + x.corrupt.len()
                    + x.unsupported.len();
            &&& verdict == Verdict::Left ==> c == t
            &&& verdict != Verdict::Left ==> total(c) == total(t) + 1
            &&& verdict == Verdict::Kept ==> c.kept == t.kept.push(path)
            &&& verdict == Verdict::Smudged ==> c.smudged == t.smudged.push(path)
            &&& verdict == Verdict::Missing ==> c.missing == t.missing.push(path)
            &&& verdict == Verdict::Corrupt ==> c.corrupt == t.corrupt.push(path)
            &&& verdict == Verdict::Unsupported ==> c.unsupported == t.unsupported.push(path)
            &&& t.kept.is_prefix_of(c.kept)
            &&& t.smudged.is_prefix_of(c.smudged)
            &&& t.missing.is_prefix_of(c.missing)
            &&& t.corrupt.is_prefix_of(c.corrupt)
            &&& t.unsupported.is_prefix_of(c.unsupported)
        }),
{
    let c = counted(t, path, verdict);
    assert(c.kept.subrange(0, t.kept.len() as int) =~= t.kept);
    assert(c.smudged.subrange(0, t.smudged.len() as int) =~= t.smudged);
    assert(c.missing.subrange(0, t.missing.len() as int) =~= t.missing);
    assert(c.corrupt.subrange(0, t.corrupt.len() as int) =~= t.corrupt);
    assert(c.unsupported.subrange(0, t.unsupported.len() as int) =~= t.unsupported);
}

/// A file may be executed by all or by none, as its index entry says, and may be written by its
/// owner only. A regular file is one whose entry has just these permissions.
pub proof fn law_permissions_are_those_of_the_index(mode: u32)
    ensures
        permissions_of(mode) == 0o755 <==> mode & 0o111 != 0,
        permissions_of(mode) == 0o644 <==> mode & 0o111 == 0,
        is_regular(mode) <==> mode == 0o100000 + permissions_of(mode),
{
    assert(0o100644u32 & 0o111 == 0) by (bit_vector);
    assert(0o100755u32 & 0o111 != 0) by (bit_vector);
}

} // verus!
