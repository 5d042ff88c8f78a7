//! Filesystem detection and copy-on-write cloning.
//!
//! - macOS: clonefile(2), which clones a whole directory tree in one call (APFS)
//! - Linux: FICLONE per file (btrfs, XFS with reflink, bcachefs, ZFS 2.2+, ...)
use vstd::prelude::*;
use vstd::string::*;
use crate::number::{digits_of, write_number};
use crate::rules::FileKind;
use crate::text::{lossy, lossy_text, same_text};

verus! {

/// A filesystem.
pub struct Filesystem {
    pub name: String,
    /// False for filesystems known to lack copy-on-write; unknown ones are probed.
    pub may_clone: bool,
}

/// What the system says of a filesystem.
pub enum Statfs {
    /// The name of its type, where `statfs` gives one (macOS).
    Name(Vec<u8>),
    /// The number of its type, where `statfs` gives one (Linux).
    Magic(u64),
    /// Nothing.
    Unknown,
}

/// Filesystems of this name are known to lack copy-on-write.
pub open spec fn is_plain(name: Seq<char>) -> bool {
    ||| name == "hfs"@
    ||| name == "msdos"@
    ||| name == "exfat"@
    ||| name == "ntfs"@
    ||| name == "nfs"@
    ||| name == "smbfs"@
}

/// The name of the filesystem with this number, and whether it may have copy-on-write.
pub open spec fn type_of(magic: u64) -> Option<(Seq<char>, bool)> {
    if magic == 0x9123_683e {
        Some(("btrfs"@, true))
    } else if magic == 0x5846_5342 {
        Some(("xfs"@, true))
    } else if magic == 0xca45_1a4e {
        Some(("bcachefs"@, true))
    } else if magic == 0x2fc1_2fc1 {
        Some(("zfs"@, true))
    } else if magic == 0x7461_636f {
        Some(("ocfs2"@, true))
    } else if magic == 0x794c_7630 {
        Some(("overlayfs"@, true))
    } else if magic == 0xef53 {
        Some(("ext4"@, false))
    } else if magic == 0x0102_1994 {
        Some(("tmpfs"@, false))
    } else if magic == 0x6969 {
        Some(("nfs"@, false))
    } else if magic == 0x6573_5546 {
        Some(("fuse"@, false))
    } else {
        None
    }
}

/// The filesystem of the type `name`.
pub fn named(name: String) -> (r: Filesystem)
    ensures
        r.name@ == name@,
        r.may_clone == !is_plain(name@),
{
    let plain: bool = same_text(name.as_str(), "hfs") || same_text(name.as_str(), "msdos")
        || same_text(name.as_str(), "exfat") || same_text(name.as_str(), "ntfs") || same_text(
        name.as_str(),
        "nfs",
    ) || same_text(name.as_str(), "smbfs");
    Filesystem { name, may_clone: !plain }
}

/// The filesystem whose type has this number, of which the lower half counts. An unknown one is
/// named by the number.
pub fn numbered(magic: u64) -> (r: Filesystem)
    ensures
        match type_of(magic & 0xffff_ffff) {
            Some((name, may_clone)) => r.name@ == name && r.may_clone == may_clone,
            None => r.name@ == "0x"@ + digits_of((magic & 0xffff_ffff) as nat, 16) && r.may_clone,
        },
{
    let magic: u64 = magic & 0xffff_ffff;
    let (name, may_clone): (&str, bool) = if magic == 0x9123_683e {
        ("btrfs", true)
    } else if magic == 0x5846_5342 {
        ("xfs", true)
    } else if magic == 0xca45_1a4e {
        ("bcachefs", true)
    } else if magic == 0x2fc1_2fc1 {
        ("zfs", true)
    } else if magic == 0x7461_636f {
        ("ocfs2", true)
    } else if magic == 0x794c_7630 {
        ("overlayfs", true)
    } else if magic == 0xef53 {
        ("ext4", false)
    } else if magic == 0x0102_1994 {
        ("tmpfs", false)
    } else if magic == 0x6969 {
        ("nfs", false)
    } else if magic == 0x6573_5546 {
        ("fuse", false)
    } else {
        let mut name: String = "0x".to_owned();
        let digits: String = write_number(magic, 16);
        name.append(digits.as_str());
        return Filesystem { name, may_clone: true };
    };
    Filesystem { name: name.to_owned(), may_clone }
}

/// The filesystem of which the system says `st`.
pub fn detect(st: &Statfs) -> (r: Filesystem)
    ensures
        match st {
            Statfs::Name(name) => r.name@ == lossy_text(name@) && r.may_clone == !is_plain(
                lossy_text(name@),
            ),
            Statfs::Magic(magic) => match type_of(magic & 0xffff_ffff) {
                Some((name, may_clone)) => r.name@ == name && r.may_clone == may_clone,
                None => r.name@ == "0x"@ + digits_of((magic & 0xffff_ffff) as nat, 16)
                    && r.may_clone,
            },
            Statfs::Unknown => r.name@ == "unknown"@ && r.may_clone,
        },
{
    match st {
        Statfs::Name(name) => named(lossy(name.as_slice())),
        Statfs::Magic(magic) => numbered(*magic),
        Statfs::Unknown => Filesystem { name: "unknown".to_owned(), may_clone: true },
    }
}

/// The numbers of the errors that mean that cloning cannot work.
pub struct Codes {
    /// Another volume.
    pub exdev: i32,
    pub enotsup: i32,
    pub eopnotsupp: i32,
    pub enotty: i32,
    pub enosys: i32,
    /// On Linux, FICLONE reports this when the filesystem can't reflink the file.
    pub einval: i32,
}

/// Reads `EXDEV`, `ENOTSUP`, `EOPNOTSUPP`, `ENOTTY`, `ENOSYS` and `EINVAL` of `libc`. They
/// differ from system to system, so nothing is said of them.
#[verifier::external_body]
fn codes() -> (r: Codes) {
    Codes {
        exdev: libc::EXDEV,
        enotsup: libc::ENOTSUP,
        eopnotsupp: libc::EOPNOTSUPP,
        enotty: libc::ENOTTY,
        enosys: libc::ENOSYS,
        einval: libc::EINVAL,
    }
}

/// An error with this number means that cloning cannot work at all.
pub open spec fn rules_out_cloning(code: i32, linux: bool, codes: Codes) -> bool {
    ||| code == codes.exdev
    ||| code == codes.enotsup
    ||| code == codes.eopnotsupp
    ||| code == codes.enotty
    ||| code == codes.enosys
    ||| linux && code == codes.einval
}

/// Whether an error means that cloning cannot work at all: one of which the system says so
/// (`unsupported`), or one with one of the numbers.
pub fn means_unsupported(unsupported: bool, code: Option<i32>, linux: bool, codes: &Codes) -> (r:
    bool)
    ensures
        r == (unsupported || code is Some && rules_out_cloning(code->0, linux, *codes)),
{
    if unsupported {
        return true;
    }
    match code {
        Some(code) => code == codes.exdev || code == codes.enotsup || code == codes.eopnotsupp
            || code == codes.enotty || code == codes.enosys || (linux && code == codes.einval),
        None => false,
    }
}

/// Whether an error means that cloning cannot work here at all (other volume, no CoW support):
/// one of the kind `Unsupported`, or one with one of the numbers that this system has for such
/// errors.
pub fn is_unsupported(unsupported: bool, code: Option<i32>, linux: bool) -> (r: bool)
    ensures
        unsupported ==> r,
        !unsupported && code is None ==> !r,
{
    means_unsupported(unsupported, code, linux, &codes())
}

/// How one entry of a tree is cloned.
#[derive(Clone, Copy, Debug, PartialEq, Eq, Structural)]
pub enum Copying {
    /// A directory is made, with the permissions of the original, and its entries are cloned.
    /// Then it gets the time of modification of the original, too ([`Copying::Times`]).
    Directory,
    /// A symbolic link to the same target is made, and gets the time of modification of the
    /// original.
    Link,
    /// A file that shares its blocks is made, and gets the time of modification of the original.
    Reflink,
    /// A directory whose entries have been cloned gets the time of modification of the original:
    /// making the entries has changed it.
    Times,
    /// Anything else (sockets, devices) is left out.
    Nothing,
}

/// How an entry of this kind is cloned.
pub open spec fn copying_of(kind: FileKind) -> Copying {
    match kind {
        FileKind::Directory => Copying::Directory,
        FileKind::Symlink => Copying::Link,
        FileKind::File => Copying::Reflink,
        _ => Copying::Nothing,
    }
}

/// How an entry of this kind is cloned.
pub fn copying(kind: FileKind) -> (r: Copying)
    ensures
        r == copying_of(kind),
{
    match kind {
        FileKind::Directory => Copying::Directory,
        FileKind::Symlink => Copying::Link,
        FileKind::File => Copying::Reflink,
        _ => Copying::Nothing,
    }
}

/// An error means that cloning cannot work if its number is one of those that say so; `EINVAL`
/// does so on Linux only. Any other number does not.
pub proof fn law_other_errors_do_not_rule_out_cloning(code: i32, linux: bool, codes: Codes)
    ensures
        ({
            let listed = seq![
                codes.exdev,
                codes.enotsup,
                codes.eopnotsupp,
                codes.enotty,
                codes.enosys,
            ];
            &&& listed.contains(code) ==> rules_out_cloning(code, linux, codes)
            &&& !listed.contains(code) ==> rules_out_cloning(code, linux, codes) == (linux && code
                == codes.einval)
        }),
{
    let listed = seq![codes.exdev, codes.enotsup, codes.eopnotsupp, codes.enotty, codes.enosys];
    assert(listed[0] == codes.exdev && listed[1] == codes.enotsup && listed[2] == codes.eopnotsupp
        && listed[3] == codes.enotty && listed[4] == codes.enosys);
}

/// Exactly directories, links and files are cloned, each in its own way.
pub proof fn law_only_files_links_and_directories_are_cloned(kind: FileKind)
    ensures
        copying_of(kind) == Copying::Directory <==> kind == FileKind::Directory,
        copying_of(kind) == Copying::Link <==> kind == FileKind::Symlink,
        copying_of(kind) == Copying::Reflink <==> kind == FileKind::File,
        copying_of(kind) != Copying::Times,
{
}

} // verus!
