//! Minimal git-lfs support without the git-lfs binary or network access: parse pointers, verify
//! smudged files, and find objects in the local object store.
//!
//! libgit2 doesn't run filter drivers, so without this an LFS file would look modified (smudged
//! content vs pointer blob) and be overwritten with the pointer text.
use vstd::prelude::*;
use vstd::slice::slice_subrange;
use vstd::string::*;
use vstd::utf8::*;
use sha2::Sha256;
use crate::bytes::{
    contains, law_occurs_between_any_two, occurs_in, same, starts_with, strip_prefix, views,
};
use crate::digest::{absorbed, feed, finish, new_hash, sha256};
use crate::number::{
    hex, hex_of, is_hex_digit, law_writing_bytes_loses_nothing, number_in, read_number,
};
use crate::path::{join, joined};
use crate::text::{from_utf8, lemma_ascii_is_text, lines, lines_of, same_text};

verus! {

/// Pointer files are small; anything larger is real content.
pub const MAX_POINTER_SIZE: u64 = 1024;

pub struct Pointer {
    /// sha256 hex
    pub oid: String,
    pub size: u64,
    /// Uses `ext-*` transformations (e.g. compression), which we can't apply.
    pub has_extensions: bool,
}

/// What a pointer says.
pub struct PointerData {
    /// The bytes of the object id.
    pub oid: Seq<u8>,
    pub size: u64,
    pub has_extensions: bool,
}

impl View for Pointer {
    type V = PointerData;

    open spec fn view(&self) -> PointerData {
        PointerData {
            oid: encode_utf8(self.oid@),
            size: self.size,
            has_extensions: self.has_extensions,
        }
    }
}

/// An object id: 64 hexadecimal digits.
pub open spec fn is_oid(s: Seq<u8>) -> bool {
    s.len() == 64 && forall|i: int| 0 <= i < s.len() ==> is_hex_digit(#[trigger] s[i])
}

/// The first line of a pointer.
pub open spec fn is_version_line(line: Seq<u8>) -> bool {
    ||| line == encode_utf8("version https://git-lfs.github.com/spec/v1"@)
    ||| line == encode_utf8("version https://hawser.github.com/spec/v1"@)
}

/// What follows `key` on the last line that begins with it.
pub open spec fn last_value(lines: Seq<Seq<u8>>, key: Seq<u8>) -> Option<Seq<u8>>
    decreases lines.len(),
{
    if lines.len() == 0 {
        None
    } else if key.is_prefix_of(lines.last()) {
        Some(lines.last().skip(key.len() as int))
    } else {
        last_value(lines.drop_last(), key)
    }
}

/// A line begins with `key`.
pub open spec fn has_key(lines: Seq<Seq<u8>>, key: Seq<u8>) -> bool {
    exists|i: int| 0 <= i < lines.len() && key.is_prefix_of(#[trigger] lines[i])
}

/// The pointer that a file holds: text whose first line names a version, whose last `oid` line
/// gives the sha256 of the content, and whose last `size` line gives its size.
pub open spec fn pointer_in(data: Seq<u8>) -> Option<PointerData> {
    let lines = lines_of(data);
    let rest = lines.drop_first();
    let oid = last_value(rest, encode_utf8("oid sha256:"@));
    let size = match last_value(rest, encode_utf8("size "@)) {
        Some(n) => number_in(n),
        None => None,
    };
    if valid_utf8(data) && lines.len() > 0 && is_version_line(lines[0]) && oid is Some && is_oid(
        oid->0,
    ) && size is Some {
        Some(
            PointerData {
                oid: oid->0,
                size: size->0,
                has_extensions: has_key(rest, encode_utf8("ext-"@)),
            },
        )
    } else {
        None
    }
}

proof fn lemma_keys_differ(line: Seq<u8>)
    ensures
        !(encode_utf8("oid sha256:"@).is_prefix_of(line) && encode_utf8("size "@).is_prefix_of(
            line,
        )),
        !(encode_utf8("oid sha256:"@).is_prefix_of(line) && encode_utf8("ext-"@).is_prefix_of(
            line,
        )),
        !(encode_utf8("size "@).is_prefix_of(line) && encode_utf8("ext-"@).is_prefix_of(line)),
{
    reveal_strlit("oid sha256:");
    reveal_strlit("size ");
    reveal_strlit("ext-");
    let a = encode_utf8("oid sha256:"@);
    let b = encode_utf8("size "@);
    let c = encode_utf8("ext-"@);
    is_ascii_chars_encode_utf8("oid sha256:"@);
    is_ascii_chars_encode_utf8("size "@);
    is_ascii_chars_encode_utf8("ext-"@);
    assert(a[0] == "oid sha256:"@[0] as u8);
    assert(b[0] == "size "@[0] as u8);
    assert(c[0] == "ext-"@[0] as u8);
    if a.is_prefix_of(line) {
        assert(line.subrange(0, a.len() as int)[0] == a[0]);
    }
    if b.is_prefix_of(line) {
        assert(line.subrange(0, b.len() as int)[0] == b[0]);
    }
    if c.is_prefix_of(line) {
        assert(line.subrange(0, c.len() as int)[0] == c[0]);
    }
}

/// Whether `s` is an object id.
fn check_oid(s: &[u8]) -> (r: bool)
    ensures
        r == is_oid(s@),
{
    if s.len() != 64 {
        return false;
    }
    let mut i: usize = 0;
    while i < s.len()
        invariant
            i <= s@.len(),
            forall|j: int| 0 <= j < i ==> is_hex_digit(#[trigger] s@[j]),
        decreases s@.len() - i,
    {
        let b: u8 = s[i];
        if !((0x30 <= b && b <= 0x39) || (0x41 <= b && b <= 0x46) || (0x61 <= b && b <= 0x66)) {
            assert(!is_hex_digit(s@[i as int]));
            return false;
        }
        i += 1;
    }
    true
}

impl Pointer {
    /// The object id is one.
    pub open spec fn wf(&self) -> bool {
        is_oid(self@.oid)
    }

    /// The pointer that a file holds.
    pub fn parse(data: &[u8]) -> (r: Option<Pointer>)
        ensures
            r is Some <==> pointer_in(data@) is Some,
            r matches Some(p) ==> pointer_in(data@) == Some(p@) && p.wf(),
    {
        if from_utf8(data).is_none() {
            return None;
        }
        let lines: Vec<Vec<u8>> = lines(data);
        let ghost all = lines_of(data@);
        if lines.len() == 0 {
            return None;
        }
        assert(lines@[0]@ == all[0]);
        if !same(
            lines[0].as_slice(),
            "version https://git-lfs.github.com/spec/v1".as_bytes(),
        ) && !same(
            lines[0].as_slice(),
            "version https://hawser.github.com/spec/v1".as_bytes(),
        ) {
            return None;
        }
        let ghost rest = all.drop_first();
        let ghost oid_key = encode_utf8("oid sha256:"@);
        let ghost size_key = encode_utf8("size "@);
        let ghost ext_key = encode_utf8("ext-"@);
        let mut oid: Option<&[u8]> = None;
        let mut size: Option<u64> = None;
        let mut has_extensions: bool = false;
        let mut i: usize = 1;
        assert(rest.take(0) =~= Seq::<Seq<u8>>::empty());
        while i < lines.len()
            invariant
                1 <= i <= lines@.len(),
                all == views(lines@),
                rest == all.drop_first(),
                oid_key == encode_utf8("oid sha256:"@),
                size_key == encode_utf8("size "@),
                ext_key == encode_utf8("ext-"@),
                oid is Some <==> last_value(rest.take(i - 1), oid_key) is Some,
                oid matches Some(v) ==> last_value(rest.take(i - 1), oid_key) == Some(v@),
                size == (match last_value(rest.take(i - 1), size_key) {
                    Some(n) => number_in(n),
                    None => None,
                }),
                has_extensions == has_key(rest.take(i - 1), ext_key),
            decreases lines@.len() - i,
        {
            let line: &[u8] = lines[i].as_slice();
            let ghost head = rest.take(i - 1);
            let ghost next = rest.take(i as int);
            proof {
                assert(next =~= head.push(line@));
                assert(next.drop_last() =~= head);
                lemma_keys_differ(line@);
                assert(has_key(next, ext_key) == (has_key(head, ext_key) || ext_key.is_prefix_of(
                    line@,
                ))) by {
                    if has_key(head, ext_key) {
                        let k = choose|k: int|
                            0 <= k < head.len() && ext_key.is_prefix_of(#[trigger] head[k]);
                        assert(next[k] == head[k]);
                    }
                    if has_key(next, ext_key) {
                        let k = choose|k: int|
                            0 <= k < next.len() && ext_key.is_prefix_of(#[trigger] next[k]);
                        if k < head.len() {
                            assert(head[k] == next[k]);
                        }
                    }
                    assert(next[i - 1] == line@);
                }
            }
            if let Some(value) = strip_prefix(line, "oid sha256:".as_bytes()) {
                oid = Some(value);
            } else if let Some(n) = strip_prefix(line, "size ".as_bytes()) {
                size = read_number(n);
            } else if starts_with(line, "ext-".as_bytes()) {
                has_extensions = true;
            }
            i += 1;
        }
        assert(rest.take(i - 1) =~= rest);
        match (oid, size) {
            (Some(oid), Some(size)) => {
                if !check_oid(oid) {
                    return None;
                }
                proof {
                    assert forall|j: int| 0 <= j < oid@.len() implies #[trigger] oid@[j] < 0x80 by {
                        assert(is_hex_digit(oid@[j]));
                    }
                    lemma_ascii_is_text(oid@);
                }
                match from_utf8(oid) {
                    Some(text) => {
                        Some(Pointer { oid: text.to_owned(), size, has_extensions })
                    },
                    None => None,
                }
            },
            _ => None,
        }
    }
}

/// Text that asks for the LFS filter.
pub open spec fn mentions_lfs(data: Seq<u8>) -> bool {
    occurs_in(encode_utf8("filter=lfs"@), data)
}

/// Whether `info/attributes` or any `.gitattributes` file mentions `filter=lfs`, so
/// repositories without LFS skip the per-file attribute lookups.
pub fn used_in(info: &[u8], attributes: &Vec<Vec<u8>>) -> (r: bool)
    ensures
        r == (mentions_lfs(info@) || exists|i: int|
            0 <= i < attributes@.len() && mentions_lfs(#[trigger] attributes@[i]@)),
        forall|a: Seq<u8>, b: Seq<u8>|
            info@ == #[trigger] (a + encode_utf8("filter=lfs"@) + b) ==> r,
        forall|i: int, a: Seq<u8>, b: Seq<u8>|
            0 <= i < attributes@.len() && (#[trigger] attributes@[i])@ == #[trigger] (a
                + encode_utf8("filter=lfs"@) + b) ==> r,
{
    if contains(info, "filter=lfs".as_bytes()) {
        return true;
    }
    let mut i: usize = 0;
    while i < attributes.len()
        invariant
            i <= attributes@.len(),
            forall|j: int| 0 <= j < i ==> !mentions_lfs(#[trigger] attributes@[j]@),
        decreases attributes@.len() - i,
    {
        if contains(attributes[i].as_slice(), "filter=lfs".as_bytes()) {
            assert(mentions_lfs(attributes@[i as int]@));
            return true;
        }
        i += 1;
    }
    proof {
        let key = encode_utf8("filter=lfs"@);
        assert forall|a: Seq<u8>, b: Seq<u8>| mentions_lfs(#[trigger] (a + key + b)) by {
            law_occurs_between_any_two(key, a, b, a);
        }
    }
    false
}

/// Whether a path with this value of the `filter` attribute is one of LFS.
pub fn is_tracked(filter: Option<&str>) -> (r: bool)
    ensures
        r == (filter is Some && (filter->0)@ == "lfs"@),
{
    match filter {
        Some(value) => same_text(value, "lfs"),
        None => false,
    }
}

/// Whether a file or blob of this size can hold a pointer, so that its content is worth reading.
pub fn may_hold_pointer(size: u64) -> (r: bool)
    ensures
        r == (size <= MAX_POINTER_SIZE),
{
    size <= MAX_POINTER_SIZE
}

/// The pointer in a file or blob of `size` bytes; the content of a larger one is not looked at.
pub open spec fn pointer_of(size: u64, content: Seq<u8>) -> Option<PointerData> {
    if size <= MAX_POINTER_SIZE {
        pointer_in(content)
    } else {
        None
    }
}

/// The pointer stored in a blob, if it is one (checks size before looking at the content).
pub fn read_pointer(size: u64, content: &[u8]) -> (r: Option<Pointer>)
    ensures
        r is Some <==> pointer_of(size, content@) is Some,
        r matches Some(p) ==> pointer_of(size, content@) == Some(p@) && p.wf(),
{
    if size > MAX_POINTER_SIZE {
        return None;
    }
    Pointer::parse(content)
}

/// Whether a file still holds pointer text (not smudged content).
pub fn file_is_pointer(size: u64, content: &[u8]) -> (r: bool)
    ensures
        r == (pointer_of(size, content@) is Some),
{
    read_pointer(size, content).is_some()
}

/// A file's content, hashed while it is read.
pub struct Content {
    hash: Sha256,
}

impl View for Content {
    type V = Seq<u8>;

    /// What has been read so far.
    closed spec fn view(&self) -> Seq<u8> {
        absorbed(self.hash)
    }
}

impl Content {
    /// Nothing read yet.
    pub fn new() -> (r: Content)
        ensures
            r@ == Seq::<u8>::empty(),
    {
        Content { hash: new_hash() }
    }

    /// The next piece that was read.
    pub fn update(&mut self, piece: &[u8])
        ensures
            final(self)@ == old(self)@ + piece@,
    {
        feed(&mut self.hash, piece);
    }
}

/// A file of this size can be the content of a pointer only if the pointer names the size.
pub fn size_matches(size: u64, pointer: &Pointer) -> (r: bool)
    ensures
        r == (size == pointer.size),
{
    size == pointer.size
}

/// The smudged content of a pointer: of its size, and with its digest.
pub open spec fn is_content_of(pointer: Pointer, size: u64, content: Seq<u8>) -> bool {
    size == pointer.size && hex_of(sha256(content)) == pointer.oid@
}

/// Whether a file with this size and SHA-256 digest is the smudged content of `pointer`.
pub fn digest_matches(size: u64, digest: &[u8], pointer: &Pointer) -> (r: bool)
    ensures
        r == (size == pointer.size && hex_of(digest@) == pointer.oid@),
{
    if !size_matches(size, pointer) {
        return false;
    }
    let text: String = hex(digest);
    text == pointer.oid
}

/// Whether a file is the smudged content of `pointer`.
pub fn file_matches(size: u64, content: Content, pointer: &Pointer) -> (r: bool)
    ensures
        r == is_content_of(*pointer, size, content@),
{
    digest_matches(size, finish(content.hash).as_slice(), pointer)
}

/// The directory of the local LFS store: `lfs.storage`, taken from git's common directory, or
/// `lfs` there.
pub open spec fn storage_of(common: Seq<u8>, storage: Option<Seq<u8>>) -> Seq<u8> {
    match storage {
        Some(dir) => joined(common, dir),
        None => joined(common, encode_utf8("lfs"@)),
    }
}

/// Where the store keeps an object: `objects/ab/cd/abcd...`.
pub open spec fn object_in(store: Seq<u8>, oid: Seq<u8>) -> Seq<u8> {
    joined(
        joined(joined(joined(store, encode_utf8("objects"@)), oid.take(2)), oid.subrange(2, 4)),
        oid,
    )
}

/// Where git-lfs keeps the object: `<lfs.storage or $GIT_COMMON_DIR/lfs>/objects/ab/cd/<oid>`.
pub fn object_path(common: &[u8], storage: Option<&[u8]>, pointer: &Pointer) -> (r: Vec<u8>)
    requires
        pointer.wf(),
    ensures
        r@ == object_in(
            storage_of(common@, match storage {
                Some(dir) => Some(dir@),
                None => None,
            }),
            pointer@.oid,
        ),
{
    let store: Vec<u8> = match storage {
        Some(dir) => join(common, dir),
        None => join(common, "lfs".as_bytes()),
    };
    let oid: &[u8] = pointer.oid.as_str().as_bytes();
    let a: Vec<u8> = join(store.as_slice(), "objects".as_bytes());
    let first: &[u8] = slice_subrange(oid, 0, 2);
    assert(first@ =~= oid@.take(2));
    let b: Vec<u8> = join(a.as_slice(), first);
    let c: Vec<u8> = join(b.as_slice(), slice_subrange(oid, 2, 4));
    join(c.as_slice(), oid)
}

/// A file that mentions the LFS filter anywhere uses it, whatever stands before it and behind it;
/// one that nowhere does, does not.
pub proof fn law_lfs_may_be_mentioned_anywhere(a: Seq<u8>, b: Seq<u8>, data: Seq<u8>)
    ensures
        mentions_lfs(a + encode_utf8("filter=lfs"@) + b),
        mentions_lfs(data) ==> exists|x: Seq<u8>, y: Seq<u8>|
            data == #[trigger] (x + encode_utf8("filter=lfs"@) + y),
{
    law_occurs_between_any_two(encode_utf8("filter=lfs"@), a, b, data);
}

/// What a pointer needs of its first line: it is one of the two versions.
pub open spec fn version_line(hawser: bool) -> Seq<u8> {
    if hawser {
        encode_utf8("version https://hawser.github.com/spec/v1"@)
    } else {
        encode_utf8("version https://git-lfs.github.com/spec/v1"@)
    }
}

proof fn lemma_last_value(lines: Seq<Seq<u8>>, key: Seq<u8>) -> (i: int)
    requires
        last_value(lines, key) is Some,
    ensures
        is_last_with(lines, i, key, last_value(lines, key)->0),
    decreases lines.len(),
{
    assert(lines[lines.len() - 1] == lines.last());
    if key.is_prefix_of(lines.last()) {
        let value = lines.last().skip(key.len() as int);
        assert(lines.last() =~= key + value) by {
            assert forall|k: int| 0 <= k < key.len() implies lines.last()[k] == key[k] by {
                assert(lines.last().subrange(0, key.len() as int)[k] == key[k]);
            }
        }
        lines.len() - 1
    } else {
        let init = lines.drop_last();
        let i = lemma_last_value(init, key);
        assert(lines[i] == init[i]);
        assert forall|k: int| i < k < lines.len() implies !key.is_prefix_of(
            #[trigger] lines[k],
        ) by {
            if k < init.len() {
                assert(lines[k] == init[k]);
            }
        }
        i
    }
}

/// The line with the number `i` is `key` and then `value`, and none after it begins with `key`.
pub open spec fn is_last_with(
    lines: Seq<Seq<u8>>,
    i: int,
    key: Seq<u8>,
    value: Seq<u8>,
) -> bool {
    &&& 0 <= i < lines.len()
    &&& lines[i] == key + value
    &&& forall|k: int| i < k < lines.len() ==> !key.is_prefix_of(#[trigger] lines[k])
}

proof fn lemma_value_is_last(lines: Seq<Seq<u8>>, i: int, key: Seq<u8>, value: Seq<u8>)
    requires
        is_last_with(lines, i, key, value),
    ensures
        last_value(lines, key) == Some(value),
    decreases lines.len(),
{
    if i == lines.len() - 1 {
        assert(lines[i] == lines.last());
        assert(lines.last().subrange(0, key.len() as int) =~= key);
        assert(lines.last().skip(key.len() as int) =~= value);
    } else {
        let init = lines.drop_last();
        assert(!key.is_prefix_of(lines[lines.len() - 1]));
        assert(init[i] == lines[i]);
        assert forall|k: int| i < k < init.len() implies !key.is_prefix_of(
            #[trigger] init[k],
        ) by {
            assert(init[k] == lines[k]);
        }
        lemma_value_is_last(init, i, key, value);
    }
}

/// A pointer has a version on its first line, an object id of 64 hexadecimal digits on the last
/// line that gives one, and a size on the last line that gives one; it has extensions if a line
/// names one. Such text is a pointer, and nothing else is.
pub proof fn law_pointer_says_what_its_lines_say(
    data: Seq<u8>,
    hawser: bool,
    rest: Seq<Seq<u8>>,
    i: int,
    oid: Seq<u8>,
    k: int,
    size: Seq<u8>,
)
    requires
        valid_utf8(data),
        lines_of(data) == seq![version_line(hawser)] + rest,
        is_last_with(rest, i, encode_utf8("oid sha256:"@), oid),
        is_last_with(rest, k, encode_utf8("size "@), size),
    ensures
        pointer_in(data) is Some <==> number_in(size) is Some && oid.len() == 64 && forall|x: int|
            0 <= x < 64 ==> {
                let b = #[trigger] oid[x];
                0x30 <= b <= 0x39 || 0x41 <= b <= 0x46 || 0x61 <= b <= 0x66
            },
        pointer_in(data) matches Some(p) ==> p.oid == oid && Some(p.size) == number_in(size)
            && p.has_extensions == exists|x: int|
            0 <= x < rest.len() && encode_utf8("ext-"@).is_prefix_of(#[trigger] rest[x]),
{
    let lines = lines_of(data);
    assert(lines[0] == version_line(hawser));
    assert(lines.drop_first() =~= rest);
    lemma_value_is_last(rest, i, encode_utf8("oid sha256:"@), oid);
    lemma_value_is_last(rest, k, encode_utf8("size "@), size);
    if is_oid(oid) {
        assert forall|x: int| 0 <= x < 64 implies {
            let b = #[trigger] oid[x];
            0x30 <= b <= 0x39 || 0x41 <= b <= 0x46 || 0x61 <= b <= 0x66
        } by {
            assert(is_hex_digit(oid[x]));
        }
    }
}

/// Text that is no UTF-8, has no version on its first line, or lacks a line for the object id or
/// the size, is no pointer.
pub proof fn law_other_text_is_no_pointer(data: Seq<u8>)
    requires
        pointer_in(data) is Some,
    ensures
        valid_utf8(data),
        lines_of(data).len() > 2,
        lines_of(data)[0] == version_line(true) || lines_of(data)[0] == version_line(false),
        exists|i: int| #[trigger]
            is_last_with(
                lines_of(data).drop_first(),
                i,
                encode_utf8("oid sha256:"@),
                pointer_in(data)->0.oid,
            ),
        exists|k: int, size: Seq<u8>|
            #[trigger] is_last_with(
                lines_of(data).drop_first(),
                k,
                encode_utf8("size "@),
                size,
            ) && number_in(size) == Some(pointer_in(data)->0.size),
{
    let rest = lines_of(data).drop_first();
    let i = lemma_last_value(rest, encode_utf8("oid sha256:"@));
    let k = lemma_last_value(rest, encode_utf8("size "@));
    let oid = pointer_in(data)->0.oid;
    let size = last_value(rest, encode_utf8("size "@))->0;
    lemma_keys_differ(rest[i]);
    assert((encode_utf8("oid sha256:"@) + oid).subrange(
        0,
        encode_utf8("oid sha256:"@).len() as int,
    ) =~= encode_utf8("oid sha256:"@));
    assert((encode_utf8("size "@) + size).subrange(0, encode_utf8("size "@).len() as int)
        =~= encode_utf8("size "@));
    assert(i != k);
}

/// Only files and blobs of up to 1024 bytes are read as pointers.
pub proof fn law_large_files_are_no_pointers(size: u64, content: Seq<u8>)
    ensures
        size > 1024 ==> pointer_of(size, content) is None,
        size <= 1024 ==> pointer_of(size, content) == pointer_in(content),
{
}

/// Two files that are both the content of a pointer have the same size and the same digest, which
/// is the one that the pointer names.
pub proof fn law_content_is_told_by_its_digest(
    pointer: Pointer,
    m: u64,
    a: Seq<u8>,
    n: u64,
    b: Seq<u8>,
)
    requires
        is_content_of(pointer, m, a),
    ensures
        is_content_of(pointer, n, b) <==> n == m && sha256(a) == sha256(b),
        m == pointer.size,
        hex_of(sha256(a)) == pointer.oid@,
{
    if is_content_of(pointer, n, b) {
        law_writing_bytes_loses_nothing(sha256(a), sha256(b));
    }
}

/// The store keeps an object in two directories, named by the first two and the next two digits
/// of its id, under its id.
pub proof fn law_objects_are_kept_by_their_ids(store: Seq<u8>, oid: Seq<u8>)
    requires
        store.len() > 0,
        store.last() != 0x2f,
        is_oid(oid),
    ensures
        object_in(store, oid) == store + encode_utf8("/objects/"@) + seq![
            oid[0],
            oid[1],
            0x2fu8,
            oid[2],
            oid[3],
            0x2fu8,
        ] + oid,
{
    reveal_strlit("objects");
    reveal_strlit("/objects/");
    let name = encode_utf8("objects"@);
    let full = encode_utf8("/objects/"@);
    is_ascii_chars_encode_utf8("objects"@);
    is_ascii_chars_encode_utf8("/objects/"@);
    assert(full =~= seq![0x2fu8] + name + seq![0x2fu8]) by {
        assert forall|i: int| 0 <= i < 9 implies full[i] == (seq![0x2fu8] + name + seq![
            0x2fu8,
        ])[i] by {
            assert("/objects/"@[i] as u8 == full[i]);
            if 0 < i < 8 {
                assert("objects"@[i - 1] as u8 == name[i - 1]);
                assert("objects"@[i - 1] == "/objects/"@[i]);
            }
        }
    }
    assert(is_hex_digit(oid[0]) && is_hex_digit(oid[1]) && is_hex_digit(oid[2]) && is_hex_digit(
        oid[3],
    ));
    assert(name[0] == "objects"@[0] as u8);
    assert(name[6] == "objects"@[6] as u8);
    let a = joined(store, name);
    assert(a =~= store + seq![0x2fu8] + name);
    let b = joined(a, oid.take(2));
    assert(b =~= a + seq![0x2fu8] + oid.take(2));
    let c = joined(b, oid.subrange(2, 4));
    assert(c =~= b + seq![0x2fu8] + oid.subrange(2, 4));
    assert(object_in(store, oid) =~= store + full + seq![
        oid[0],
        oid[1],
        0x2fu8,
        oid[2],
        oid[3],
        0x2fu8,
    ] + oid);
}

/// The store is `lfs` in git's common directory, unless `lfs.storage` names another: one from
/// the root stands for itself, and others lie in that directory.
pub proof fn law_store_is_where_git_lfs_keeps_it(common: Seq<u8>, dir: Seq<u8>)
    requires
        common.len() > 0,
        common.last() != 0x2f,
        dir.len() > 0,
    ensures
        storage_of(common, None) == common + encode_utf8("/lfs"@),
        dir[0] == 0x2f ==> storage_of(common, Some(dir)) == dir,
        dir[0] != 0x2f ==> storage_of(common, Some(dir)) == common.push(0x2fu8) + dir,
{
    reveal_strlit("lfs");
    reveal_strlit("/lfs");
    is_ascii_chars_encode_utf8("lfs"@);
    is_ascii_chars_encode_utf8("/lfs"@);
    let name = encode_utf8("lfs"@);
    let full = encode_utf8("/lfs"@);
    assert forall|i: int| 0 <= i < 4 implies full[i] == (seq![0x2fu8] + name)[i] by {
        assert("/lfs"@[i] as u8 == full[i]);
        if i > 0 {
            assert("lfs"@[i - 1] as u8 == name[i - 1]);
            assert("lfs"@[i - 1] == "/lfs"@[i]);
        }
    }
    assert(full =~= seq![0x2fu8] + name);
    assert(name[0] == "lfs"@[0] as u8);
    assert(storage_of(common, None) =~= common + full);
}

} // verus!
